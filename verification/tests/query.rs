use natbitset::Bitset;

#[test]
fn is_empty() {
    assert!(Bitset::<8>::none().is_empty());

    assert!(!Bitset::<8>::from(&[1]).is_empty());
    assert!(!Bitset::<8>::from_range(1, 8).is_empty());
}

#[test]
fn is_single() {
    assert!(Bitset::<8>::from(&[1]).is_single());
    assert!(Bitset::<8>::from(&[8]).is_single());

    assert!(!Bitset::<8>::from(&[1, 2]).is_single());
    assert!(!Bitset::<8>::from_range(1, 8).is_single());
}

#[test]
fn is_full() {
    assert!(Bitset::<8>::from_range(1, 8).is_full());

    assert!(!Bitset::<8>::none().is_full());
    assert!(!Bitset::<8>::from(&[1, 2]).is_full());
}

#[test]
fn has() {
    assert!(!Bitset::<8>::none().has(0));
    assert!(!Bitset::<8>::none().has(1));

    assert!(!Bitset::<8>::from(&[1]).has(0));
    assert!(Bitset::<8>::from(&[1]).has(1));

    assert!(!Bitset::<8>::from_range(1, 8).has(0));
    assert!(Bitset::<8>::from_range(1, 8).has(1));
    assert!(Bitset::<8>::from_range(1, 8).has(7));
    assert!(Bitset::<8>::from_range(1, 8).has(8));
    assert!(!Bitset::<8>::from_range(1, 8).has(9));
}

#[test]
fn members() {
    assert_eq!(
        Bitset::<8>::none().members(),
        std::collections::HashSet::new()
    );
    assert_eq!(
        Bitset::<8>::from(&[1, 2]).members(),
        [2, 1].into_iter().collect()
    );
    assert_eq!(
        Bitset::<8>::from_range(1, 8).members(),
        (1..=8).rev().collect()
    );
}

#[test]
fn max() {
    assert_eq!(Bitset::<8>::none().maximum(), None);
    assert_eq!(Bitset::<8>::from(&[1, 2]).maximum(), Some(2));
    assert_eq!(Bitset::<8>::from(&[1, 2, 4]).maximum(), Some(4));
    assert_eq!(Bitset::<8>::from(&[1, 2, 4, 7]).maximum(), Some(7));
    assert_eq!(Bitset::<8>::from(&[1, 2, 4, 7, 8]).maximum(), Some(8));
}

#[test]
fn single() {
    assert_eq!(Bitset::<8>::from(&[1]).only(), Some(1));
    assert_eq!(Bitset::<8>::from(&[8]).only(), Some(8));

    assert_eq!(Bitset::<8>::none().only(), None);
    assert_eq!(Bitset::<8>::from(&[1, 2]).only(), None);
    assert_eq!(Bitset::<8>::from_range(1, 8).only(), None);
}
