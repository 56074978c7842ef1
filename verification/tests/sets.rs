use sudoku_engine::digit_set::DigitSet;

#[test]
fn full_set_has_every_digit() {
    let f = DigitSet::full();
    for d in 1u8..=9 {
        assert!(f.has_digit(d));
    }
    assert_eq!(f.count(), 9);
    assert!(!f.is_empty());
    assert!(!f.is_single());
    assert_eq!(f.single_to_number(), None);
}

#[test]
fn singleton_set_has_exactly_its_digit() {
    for v in 1u8..=9 {
        let s = DigitSet::new(v);
        assert_eq!(s.count(), 1);
        assert!(s.is_single());
        assert_eq!(s.single_to_number(), Some(v));
        for d in 1u8..=9 {
            assert_eq!(s.has_digit(d), d == v);
        }
    }
}

#[test]
fn sub_removes_exactly_the_given_digits() {
    let f = DigitSet::full();
    let s = f.sub(DigitSet::new(3));
    assert_eq!(s.count(), 8);
    assert!(!s.has_digit(3));
    for d in 1u8..=9 {
        if d != 3 {
            assert!(s.has_digit(d));
        }
    }
    let again = s.sub(DigitSet::new(3));
    assert_eq!(again, s);
}

#[test]
fn contains_and_disjoint() {
    let f = DigitSet::full();
    let three = DigitSet::new(3);
    assert!(f.contains(three));
    assert!(!f.doesnt_contain(three));
    let rest = f.sub(three);
    assert!(rest.doesnt_contain(three));
    assert!(!rest.contains(f));
    assert!(f.contains(rest));
}

#[test]
fn select_random_picks_a_member() {
    let mut s = DigitSet::full();
    s = s.sub(DigitSet::new(1));
    s = s.sub(DigitSet::new(2));
    s = s.sub(DigitSet::new(9));
    for _ in 0..50 {
        let pick = s.select_random();
        assert!(pick.is_single());
        let d = pick.single_to_number().unwrap();
        assert!(s.has_digit(d));
        assert!(d >= 3 && d <= 8);
    }
}

#[test]
fn empty_set_after_removing_everything() {
    let mut s = DigitSet::full();
    for d in 1u8..=9 {
        s = s.sub(DigitSet::new(d));
    }
    assert!(s.is_empty());
    assert_eq!(s.count(), 0);
}
