use natbitset::Bitset;

#[test]
#[should_panic]
fn intersect_nonempty_1() {
    Bitset::<8>::none().intersect_nonempty_panicking(Bitset::<8>::none())
}

#[test]
#[should_panic]
fn intersect_nonempty_2() {
    Bitset::<8>::none().intersect_nonempty_panicking(Bitset::<8>::from_range(1, 8))
}

#[test]
#[should_panic]
fn intersect_nonempty_3() {
    Bitset::<8>::from_range(1, 4).intersect_nonempty_panicking(Bitset::<8>::from_range(5, 8))
}

#[test]
#[should_panic]
fn retain_nonempty_1() {
    Bitset::<8>::none().retain_nonempty_panicking(|_| true)
}

#[test]
#[should_panic]
fn retain_nonempty_2() {
    Bitset::<8>::from(&[1]).retain_nonempty_panicking(|_| false)
}

#[test]
#[should_panic]
fn retain_nonempty_3() {
    Bitset::<8>::from_range(1, 8).retain_nonempty_panicking(|_| false)
}
