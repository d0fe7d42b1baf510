use some_dice::interpret::chance::Chance;
use some_dice::interpret::dice::{Dice, Die};

#[test]
fn test_die_new() {
    assert_eq!(
        Die::new(vec![
            (1, Chance::new(1, 4)),
            (2, Chance::new(1, 4)),
            (3, Chance::new(1, 4)),
            (4, Chance::new(1, 4)),
        ])
        .unwrap(),
        Die::new_regular(4)
    );
}

#[test]
fn test_die_new_combines_same_sides() {
    assert_eq!(
        Die::new(vec![
            (1, Chance::new(4, 32)),
            (2, Chance::new(2, 16)),
            (3, Chance::new(1, 8)),
            (4, Chance::new(1, 4)),
            (3, Chance::new(1, 8)),
            (2, Chance::new(2, 16)),
            (1, Chance::new(4, 32)),
        ])
        .unwrap(),
        Die::new_regular(4)
    );
}

#[test]
fn test_die_new_filters_out_zero_chances() {
    assert_eq!(
        Die::new(vec![
            (1, Chance::new(1, 4)),
            (2, Chance::new(1, 4)),
            (3, Chance::new(1, 4)),
            (4, Chance::new(1, 4)),
            (5, Chance::new(0, 4)),
        ])
        .unwrap(),
        Die::new_regular(4)
    );
}

#[test]
fn test_die_from_dice() {
    let die = Die::new(vec![
        (2, Chance::new(1, 16)),
        (3, Chance::new(2, 16)),
        (4, Chance::new(3, 16)),
        (5, Chance::new(4, 16)),
        (6, Chance::new(3, 16)),
        (7, Chance::new(2, 16)),
        (8, Chance::new(1, 16)),
    ])
    .unwrap();

    assert_eq!(Die::from_dice(Dice::new(2, Die::new_regular(4))).unwrap(), die);
}

#[test]
fn test_flatten_dice() {
    let die = Die::new(vec![
        (2, Chance::new(1, 16)),
        (3, Chance::new(2, 16)),
        (4, Chance::new(3, 16)),
        (5, Chance::new(4, 16)),
        (6, Chance::new(3, 16)),
        (7, Chance::new(2, 16)),
        (8, Chance::new(1, 16)),
    ])
    .unwrap();

    assert_eq!(Dice::new(2, Die::new_regular(4)).flatten().unwrap(), Dice::new(1, die));
}

#[test]
fn test_die_add_scalar() {
    assert_eq!(Die::new_regular(4).multiply_scalar(1).unwrap(), Die::new_regular(4));

    assert_eq!(
        Die::new_regular(4).multiply_scalar(2).unwrap(),
        Die::new(vec![
            (2, Chance::new(1, 4)),
            (4, Chance::new(1, 4)),
            (6, Chance::new(1, 4)),
            (8, Chance::new(1, 4)),
        ])
        .unwrap()
    );

    assert_eq!(
        Die::new_regular(4).multiply_scalar(-1).unwrap(),
        Die::new(vec![
            (-1, Chance::new(1, 4)),
            (-2, Chance::new(1, 4)),
            (-3, Chance::new(1, 4)),
            (-4, Chance::new(1, 4)),
        ])
        .unwrap()
    );

    assert_eq!(
        Die::new_regular(4).multiply_scalar(0).unwrap(),
        Die::new(vec![(0, Chance::new(1, 1))]).unwrap()
    );
}

#[test]
fn test_die_mul_scalar() {
    assert_eq!(Die::new_regular(4).multiply_scalar(1).unwrap(), Die::new_regular(4));

    assert_eq!(
        Die::new_regular(4).multiply_scalar(2).unwrap(),
        Die::new(vec![
            (2, Chance::new(1, 4)),
            (4, Chance::new(1, 4)),
            (6, Chance::new(1, 4)),
            (8, Chance::new(1, 4)),
        ])
        .unwrap()
    );

    assert_eq!(
        Die::new_regular(4).multiply_scalar(-1).unwrap(),
        Die::new(vec![
            (-1, Chance::new(1, 4)),
            (-2, Chance::new(1, 4)),
            (-3, Chance::new(1, 4)),
            (-4, Chance::new(1, 4)),
        ])
        .unwrap()
    );

    assert_eq!(
        Die::new_regular(4).multiply_scalar(0).unwrap(),
        Die::new(vec![(0, Chance::new(1, 1))]).unwrap()
    );
}

#[test]
fn test_die_div_scalar() {
    assert_eq!(Die::new_regular(4).divide_scalar(1).unwrap(), Die::new_regular(4));

    assert_eq!(
        Die::new_regular(4).divide_scalar(2).unwrap(),
        Die::new(vec![
            (0, Chance::new(1, 4)),
            (1, Chance::new(1, 2)),
            (2, Chance::new(1, 4)),
        ])
        .unwrap()
    );

    assert_eq!(
        Die::new_regular(4).divide_scalar(-1).unwrap(),
        Die::new(vec![
            (-1, Chance::new(1, 4)),
            (-2, Chance::new(1, 4)),
            (-3, Chance::new(1, 4)),
            (-4, Chance::new(1, 4)),
        ])
        .unwrap()
    );
}

#[test]
fn test_die_add_scalar_shifts_sides() {
    assert_eq!(
        Die::new_regular(4).add_scalar(10).unwrap(),
        Die::new(vec![
            (11, Chance::new(1, 4)),
            (12, Chance::new(1, 4)),
            (13, Chance::new(1, 4)),
            (14, Chance::new(1, 4)),
        ])
        .unwrap()
    );
}

#[test]
fn test_die_subtract_scalar_shifts_sides() {
    assert_eq!(
        Die::new_regular(2).subtract_scalar(2).unwrap(),
        Die::new(vec![(-1, Chance::new(1, 2)), (0, Chance::new(1, 2))]).unwrap()
    );
}

#[test]
fn test_die_add_scalar_overflow_is_an_error() {
    assert!(Die::new_regular(4).add_scalar(i32::MAX).is_err());
}

#[test]
fn test_new_regular_negative_runs_up_to_minus_one() {
    assert_eq!(
        Die::new_regular(-3),
        Die::new(vec![
            (-3, Chance::new(1, 3)),
            (-2, Chance::new(1, 3)),
            (-1, Chance::new(1, 3)),
        ])
        .unwrap()
    );
}

#[test]
fn test_new_regular_zero_is_empty() {
    assert_eq!(Die::new_regular(0).entries().len(), 0);
}

#[test]
fn test_flatten_single_count_is_identity() {
    let pool = Dice::new(1, Die::new_regular(6));
    assert_eq!(pool.clone().flatten().unwrap(), pool);
}

#[test]
fn test_flatten_zero_count_is_empty() {
    let flattened = Dice::new(0, Die::new_regular(6)).flatten().unwrap();
    assert_eq!(flattened.count, 1);
    assert_eq!(flattened.die.entries().len(), 0);
}

#[test]
fn test_flatten_negative_count_negates_sides() {
    assert_eq!(
        Die::from_dice(Dice::new(-1, Die::new_regular(4))).unwrap(),
        Die::new(vec![
            (-4, Chance::new(1, 4)),
            (-3, Chance::new(1, 4)),
            (-2, Chance::new(1, 4)),
            (-1, Chance::new(1, 4)),
        ])
        .unwrap()
    );
}

#[test]
fn test_flatten_negative_pool_convolves_then_negates() {
    // Convolving two d2 gives {2: 1/4, 3: 1/2, 4: 1/4}; the negative
    // count negates the sides only afterward.
    assert_eq!(
        Die::from_dice(Dice::new(-2, Die::new_regular(2))).unwrap(),
        Die::new(vec![
            (-4, Chance::new(1, 4)),
            (-3, Chance::new(1, 2)),
            (-2, Chance::new(1, 4)),
        ])
        .unwrap()
    );
}

#[test]
fn test_new_regular_one_is_certain() {
    assert_eq!(
        Die::new_regular(1),
        Die::new(vec![(1, Chance::new(1, 1))]).unwrap()
    );
}
