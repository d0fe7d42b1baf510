use some_dice::interpret::chance::Chance;

#[test]
fn test_new_and_simplify() {
    assert_eq!(Chance::new(6, 9), Chance { numerator: 2, denominator: 3 });

    assert_eq!(Chance::new(3, 5), Chance { numerator: 3, denominator: 5 });

    assert_eq!(Chance::new(3, 3), Chance { numerator: 1, denominator: 1 });
}

#[test]
fn test_multiply_by_chance() {
    assert_eq!(Chance::new(1, 2).multiply(Chance::new(1, 1)).unwrap(), Chance::new(1, 2));
    assert_eq!(Chance::new(1, 2).multiply(Chance::new(1, 3)).unwrap(), Chance::new(1, 6));
    assert_eq!(Chance::new(1, 3).multiply(Chance::new(3, 4)).unwrap(), Chance::new(1, 4));
}

#[test]
fn test_add_to_chance() {
    assert_eq!(Chance::new(1, 2).add(Chance::new(1, 2)).unwrap(), Chance::new(1, 1));
    assert_eq!(Chance::new(1, 3).add(Chance::new(1, 6)).unwrap(), Chance::new(1, 2));
    assert_eq!(Chance::new(1, 3).add(Chance::new(1, 5)).unwrap(), Chance::new(8, 15));
}

#[test]
fn test_multiply_by_scalar() {
    assert_eq!(Chance::new(1, 2).multiply_scalar(2).unwrap(), Chance::new(1, 1));
    assert_eq!(Chance::new(1, 3).multiply_scalar(2).unwrap(), Chance::new(2, 3));
    assert_eq!(Chance::new(1, 3).multiply_scalar(1).unwrap(), Chance::new(1, 3));
}

#[test]
fn test_divide_by_scalar() {
    assert_eq!(Chance::new(1, 1).divide_scalar(2).unwrap(), Chance::new(1, 2));
    assert_eq!(Chance::new(2, 3).divide_scalar(2).unwrap(), Chance::new(1, 3));
    assert_eq!(Chance::new(1, 3).divide_scalar(1).unwrap(), Chance::new(1, 3));
}

#[test]
fn test_zero_numerator_reduces_to_unit_denominator() {
    assert_eq!(Chance::new(0, 4), Chance { numerator: 0, denominator: 1 });
}

#[test]
fn test_add_overflow_is_an_error() {
    assert!(Chance::new(usize::MAX, 1).add(Chance::new(1, 2)).is_err());
}

#[test]
fn test_multiply_overflow_is_an_error() {
    assert!(Chance::new(usize::MAX, 1).multiply(Chance::new(3, 1)).is_err());
}
