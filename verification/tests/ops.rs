use natbitset::Bitset;

#[test]
fn intersect_pure() {
    assert_eq!(
        Bitset::<8>::none().intersection(&Bitset::<8>::from_range(1, 8)),
        Bitset::<8>::none()
    );
    assert_eq!(
        Bitset::<8>::from_range(1, 4).intersection(&Bitset::<8>::from_range(5, 8)),
        Bitset::<8>::none()
    );
    assert_eq!(
        Bitset::<8>::from_range(1, 5).intersection(&Bitset::<8>::from(&[2, 5])),
        Bitset::<8>::from(&[2, 5])
    );
    assert_eq!(
        Bitset::<8>::from_range(1, 3).intersection(&Bitset::<8>::from(&[3, 4])),
        Bitset::<8>::from(&[3])
    );
}

#[test]
fn intersect_inplace() {
    let mut bits = Bitset::<8>::from_range(1, 4);
    bits.intersect_in_place(&Bitset::<8>::from(&[1, 2, 5]));
    assert_eq!(bits, Bitset::<8>::from(&[1, 2]));
}

#[test]
fn union_pure() {
    assert_eq!(
        Bitset::<8>::none().union(&Bitset::<8>::from_range(1, 8)),
        Bitset::<8>::from_range(1, 8)
    );
    assert_eq!(
        Bitset::<8>::from_range(1, 4).union(&Bitset::<8>::from_range(5, 8)),
        Bitset::<8>::from_range(1, 8)
    );
    assert_eq!(
        Bitset::<8>::from_range(1, 5).union(&Bitset::<8>::from(&[2, 5])),
        Bitset::<8>::from_range(1, 5)
    );
    assert_eq!(
        Bitset::<8>::from_range(1, 3).union(&Bitset::<8>::from(&[3, 4])),
        Bitset::<8>::from_range(1, 4)
    );
}

#[test]
fn union_inplace() {
    let mut bits = Bitset::<8>::from_range(1, 4);
    bits.union_in_place(&Bitset::<8>::from(&[1, 2, 5]));
    assert_eq!(bits, Bitset::<8>::from_range(1, 5));
}

#[test]
fn difference_pure() {
    assert_eq!(
        Bitset::<8>::none().difference(&Bitset::<8>::from_range(1, 8)),
        Bitset::<8>::none()
    );
    assert_eq!(
        Bitset::<8>::from_range(1, 4).difference(&Bitset::<8>::from_range(5, 8)),
        Bitset::<8>::from_range(1, 4)
    );
    assert_eq!(
        Bitset::<8>::from_range(1, 5).difference(&Bitset::<8>::from(&[2, 5])),
        Bitset::<8>::from(&[1, 3, 4])
    );
    assert_eq!(
        Bitset::<8>::from_range(1, 3).difference(&Bitset::<8>::from(&[3, 4])),
        Bitset::<8>::from(&[1, 2])
    );
}

#[test]
fn difference_inplace() {
    let mut bits = Bitset::<8>::from_range(1, 4);
    bits.difference_in_place(&Bitset::<8>::from(&[1, 2, 5]));
    assert_eq!(bits, Bitset::<8>::from(&[3, 4]));
}

#[test]
fn add_pure() {
    assert_eq!(Bitset::<8>::none().with(1), Bitset::<8>::from(&[1]));
    assert_eq!(
        Bitset::<8>::from_range(1, 4).with(5),
        Bitset::<8>::from_range(1, 5)
    );
    assert_eq!(
        Bitset::<8>::from_range(1, 4).with(4),
        Bitset::<8>::from_range(1, 4)
    );
    assert_eq!(
        Bitset::<8>::from_range(1, 4).with(99),
        Bitset::<8>::from_range(1, 4)
    );
}

#[test]
fn add_inplace() {
    let mut bits = Bitset::<8>::from_range(1, 4);
    bits.insert(5);
    assert_eq!(bits, Bitset::<8>::from_range(1, 5));
}

#[test]
fn sub_pure() {
    assert_eq!(Bitset::<8>::none().without(1), Bitset::<8>::none());
    assert_eq!(
        Bitset::<8>::from_range(1, 4).without(4),
        Bitset::<8>::from_range(1, 3)
    );
    assert_eq!(
        Bitset::<8>::from_range(1, 4).without(99),
        Bitset::<8>::from_range(1, 4)
    );
}

#[test]
fn sub_inplace() {
    let mut bits = Bitset::<8>::from_range(1, 5);
    bits.remove(&5);
    assert_eq!(bits, Bitset::<8>::from_range(1, 4));
}
