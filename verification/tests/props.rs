use std::cmp::Ordering;

use natbitset::Bitset;

#[test]
fn all_and_none_sizes() {
    assert_eq!(Bitset::<1>::all().len(), 1);
    assert_eq!(Bitset::<5>::all().len(), 5);
    assert_eq!(Bitset::<8>::all().len(), 8);
    assert_eq!(Bitset::<63>::all().len(), 63);

    assert_eq!(Bitset::<1>::none().len(), 0);
    assert_eq!(Bitset::<5>::none().len(), 0);
    assert_eq!(Bitset::<63>::none().len(), 0);
}

#[test]
fn round_trip_from_members() {
    let s = Bitset::<8>::from(&[2, 4, 7]);
    let members: Vec<i64> = s.members_desc().into_iter().map(|m| m as i64).collect();
    assert_eq!(Bitset::<8>::from(&members), s);

    let empty = Bitset::<8>::none();
    let no_members: Vec<i64> = empty.members_desc().into_iter().map(|m| m as i64).collect();
    assert_eq!(Bitset::<8>::from(&no_members), empty);
}

#[test]
fn self_algebra_idempotent() {
    let s = Bitset::<8>::from(&[1, 3, 6]);

    assert_eq!(s.union(&s), s);
    assert_eq!(s.intersection(&s), s);
    assert_eq!(s.difference(&s), Bitset::<8>::none());
}

#[test]
fn symmetric_difference_form() {
    let a = Bitset::<8>::from(&[1, 2, 3, 5]);
    let b = Bitset::<8>::from(&[3, 4, 5, 8]);

    let via_union = a.union(&b).difference(&a.intersection(&b));
    assert_eq!(via_union, a.symmetric_difference(&b));
    assert_eq!(via_union, Bitset::<8>::from(&[1, 2, 4, 8]));
}

#[test]
fn intersection_is_lower_bound() {
    let a = Bitset::<8>::from(&[1, 2, 3, 5]);
    let b = Bitset::<8>::from(&[3, 4, 5, 8]);
    let i = a.intersection(&b);

    assert!(i.is_subset(&a));
    assert!(i.is_subset(&b));

    let c = Bitset::<8>::from(&[5, 3]);
    assert!(i.is_subset(&c) && c.is_subset(&i));
    assert_eq!(i, c);
}

#[test]
fn members_desc_matches_len() {
    for elems in [vec![], vec![4], vec![1, 2, 5, 8], vec![1, 2, 3, 4, 5, 6, 7, 8]] {
        let s = Bitset::<8>::from(&elems);
        let desc = s.members_desc();

        assert_eq!(desc.len(), s.len());
        for w in desc.windows(2) {
            assert!(w[0] > w[1]);
        }

        let mut it = s.iter();
        let mut yielded = 0;
        let mut last: Option<usize> = None;
        while let Some(x) = it.next() {
            if let Some(prev) = last {
                assert!(prev > x);
            }
            last = Some(x);
            yielded += 1;
        }
        assert_eq!(yielded, s.len());
    }
}

#[test]
fn members_asc_reverses_desc() {
    let s = Bitset::<8>::from(&[2, 4, 7]);
    assert_eq!(s.members_desc(), vec![7, 4, 2]);
    assert_eq!(s.members_asc(), vec![2, 4, 7]);
}

#[test]
fn minimum_values() {
    assert_eq!(Bitset::<8>::none().minimum(), None);
    assert_eq!(Bitset::<8>::from(&[1, 2, 6]).minimum(), Some(1));
    assert_eq!(Bitset::<8>::from(&[2, 6]).minimum(), Some(2));
}

#[test]
fn insert_reports_change() {
    let mut s = Bitset::<8>::from(&[2]);

    assert!(!s.insert(2));
    assert_eq!(s, Bitset::<8>::from(&[2]));

    assert!(!s.insert(99));
    assert_eq!(s, Bitset::<8>::from(&[2]));

    assert!(s.insert(7));
    assert_eq!(s, Bitset::<8>::from(&[2, 7]));
}

#[test]
fn remove_reports_change() {
    let mut s = Bitset::<8>::from(&[2, 7]);

    assert!(!s.remove(&3));
    assert!(!s.remove(&99));
    assert!(s.remove(&7));
    assert_eq!(s, Bitset::<8>::from(&[2]));
}

#[test]
fn clear_empties() {
    let mut s = Bitset::<8>::from_range(1, 8);
    s.clear();
    assert!(s.is_empty());
    assert_eq!(s.0, 0);
}

#[test]
fn single_builds_singletons() {
    assert_eq!(Bitset::<8>::single(1), Bitset::<8>::from(&[1]));
    assert_eq!(Bitset::<8>::single(8), Bitset::<8>::from(&[8]));
    assert_eq!(Bitset::<8>::single(5).only(), Some(5));
}

#[test]
fn retain_keeps_matching_members() {
    let mut s = Bitset::<8>::from_range(1, 8);
    s.retain(|m| m % 2 == 1);
    assert_eq!(s, Bitset::<8>::from(&[1, 3, 5, 7]));

    let mut t = Bitset::<8>::from(&[2, 5]);
    t.retain(|_| true);
    assert_eq!(t, Bitset::<8>::from(&[2, 5]));
}

#[test]
fn subset_comparison() {
    let small = Bitset::<8>::from(&[1, 2]);
    let big = Bitset::<8>::from(&[1, 2, 3]);
    let other = Bitset::<8>::from(&[4]);

    assert_eq!(small.partial_cmp(&big), Some(Ordering::Less));
    assert_eq!(big.partial_cmp(&small), Some(Ordering::Greater));
    assert_eq!(small.partial_cmp(&small.clone()), Some(Ordering::Equal));
    assert_eq!(small.partial_cmp(&other), None);
}

#[test]
fn renders_members_ascending() {
    assert_eq!(Bitset::<8>::none().render(), "Bitset {}");
    assert_eq!(Bitset::<8>::from(&[4]).render(), "Bitset {4}");
    assert_eq!(Bitset::<8>::from(&[7, 2, 4]).render(), "Bitset {2, 4, 7}");
    assert_eq!(Bitset::<63>::from(&[10, 63]).render(), "Bitset {10, 63}");
}

#[test]
fn raw_storage_round_trip() {
    let s = Bitset::<4>(0b_0101);
    assert_eq!(s, Bitset::<4>::from(&[1, 3]));
    assert_eq!(s.0, 0b_0101);
}

#[test]
fn wide_capacity_values() {
    let s = Bitset::<63>::from(&[1, 62, 63]);
    assert_eq!(s.len(), 3);
    assert!(s.has(63));
    assert!(!s.has(64));
    assert_eq!(s.maximum(), Some(63));
    assert_eq!(s.members_desc(), vec![63, 62, 1]);
}
