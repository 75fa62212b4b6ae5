use natbitset::Bitset;

#[test]
fn len() {
    assert_eq!(Bitset::<8>::none().len(), 0);
    assert_eq!(Bitset::<8>::from(&[1]).len(), 1);
    assert_eq!(Bitset::<8>::from_range(1, 7).len(), 7);
    assert_eq!(Bitset::<8>::from_range(1, 8).len(), 8);
}

#[test]
fn contains() {
    assert!(!Bitset::<8>::none().contains(&0));
    assert!(!Bitset::<8>::none().contains(&1));

    assert!(!Bitset::<8>::from(&[1]).contains(&0));
    assert!(Bitset::<8>::from(&[1]).contains(&1));

    assert!(!Bitset::<8>::from_range(1, 8).contains(&0));
    assert!(Bitset::<8>::from_range(1, 8).contains(&1));
    assert!(Bitset::<8>::from_range(1, 8).contains(&7));
    assert!(Bitset::<8>::from_range(1, 8).contains(&8));
    assert!(!Bitset::<8>::from_range(1, 8).contains(&9));
}

#[test]
fn insert() {
    let mut bitset = Bitset::<8>::none();

    assert!(bitset.insert(1));
    assert_eq!(bitset, Bitset::<8>::from(&[1]));

    assert!(!bitset.insert(1));
    assert_eq!(bitset, Bitset::<8>::from(&[1]));
}

#[test]
fn is_subset() {
    assert!(Bitset::<8>::none().is_subset(&Bitset::<8>::none()));
    assert!(Bitset::<8>::none().is_subset(&Bitset::<8>::from(&[1])));
    assert!(Bitset::<8>::none().is_subset(&Bitset::<8>::from_range(1, 8)));

    assert!(Bitset::<8>::from(&[1]).is_subset(&Bitset::<8>::from(&[1])));
    assert!(Bitset::<8>::from(&[1]).is_subset(&Bitset::<8>::from_range(1, 8)));

    assert!(Bitset::<8>::from_range(1, 7).is_subset(&Bitset::<8>::from_range(1, 8)));
    assert!(Bitset::<8>::from_range(1, 8).is_subset(&Bitset::<8>::from_range(1, 8)));
}

#[test]
fn is_superset() {
    assert!(Bitset::<8>::none().is_superset(&Bitset::<8>::none()));
    assert!(Bitset::<8>::from(&[1]).is_superset(&Bitset::<8>::none()));
    assert!(Bitset::<8>::from_range(1, 8).is_superset(&Bitset::<8>::none()));
    assert!(Bitset::<8>::from(&[1]).is_superset(&Bitset::<8>::from(&[1])));
    assert!(Bitset::<8>::from_range(1, 8).is_superset(&Bitset::<8>::from(&[1])));
    assert!(Bitset::<8>::from_range(1, 8).is_superset(&Bitset::<8>::from_range(1, 7)));
    assert!(Bitset::<8>::from_range(1, 8).is_superset(&Bitset::<8>::from_range(1, 8)));
}

#[test]
fn is_disjoint() {
    assert!(Bitset::<8>::from(&[1]).is_disjoint(&Bitset::<8>::from(&[2])));
    assert!(Bitset::<8>::from(&[2]).is_disjoint(&Bitset::<8>::from(&[1])));

    assert!(Bitset::<8>::from(&[1, 2]).is_disjoint(&Bitset::<8>::from(&[3, 4])));
    assert!(Bitset::<8>::from(&[3, 4]).is_disjoint(&Bitset::<8>::from(&[1, 2])));

    assert!(!Bitset::<8>::from(&[1, 2]).is_disjoint(&Bitset::<8>::from(&[2, 3])));
}
