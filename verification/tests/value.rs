use some_dice::interpret::chance::Chance;
use some_dice::interpret::dice::{Dice, Die};
use some_dice::interpret::value::Value;
use some_dice::outcome::Outcome;

#[test]
fn test_number_into_outcomes() {
    assert_eq!(
        Value::Number(1).into_outcomes().unwrap(),
        vec![Outcome { value: 1, weight: 1 }]
    );
}

#[test]
fn test_dice_into_outcomes() {
    assert_eq!(
        Value::Dice(Dice::new(
            1,
            Die::new(vec![
                (1, Chance::new(1, 4)),
                (2, Chance::new(1, 4)),
                (3, Chance::new(1, 4)),
                (4, Chance::new(1, 4)),
            ])
            .unwrap()
        ))
        .into_outcomes()
        .unwrap(),
        vec![
            Outcome { value: 1, weight: 1 },
            Outcome { value: 2, weight: 1 },
            Outcome { value: 3, weight: 1 },
            Outcome { value: 4, weight: 1 },
        ]
    );

    assert_eq!(
        Value::Dice(Dice::new(
            1,
            Die::new(vec![
                (1, Chance::new(1, 2)),
                (2, Chance::new(1, 3)),
                (3, Chance::new(1, 6)),
            ])
            .unwrap()
        ))
        .into_outcomes()
        .unwrap(),
        vec![
            Outcome { value: 1, weight: 3 },
            Outcome { value: 2, weight: 2 },
            Outcome { value: 3, weight: 1 },
        ]
    );
}

#[test]
fn test_empty_dice_into_outcomes() {
    assert_eq!(
        Value::Dice(Dice::new(1, Die::new(vec![]).unwrap())).into_outcomes().unwrap(),
        vec![Outcome { value: 0, weight: 1 }]
    );

    assert_eq!(
        Value::Dice(Dice::new(
            0,
            Die::new(vec![
                (1, Chance::new(1, 4)),
                (2, Chance::new(1, 4)),
                (3, Chance::new(1, 4)),
                (4, Chance::new(1, 4)),
            ])
            .unwrap()
        ))
        .into_outcomes()
        .unwrap(),
        vec![Outcome { value: 0, weight: 1 }]
    );
}

#[test]
fn test_sequence_into_outcomes() {
    assert_eq!(
        Value::Sequence(vec![1, 2, 3, 4]).into_outcomes().unwrap(),
        vec![
            Outcome { value: 1, weight: 1 },
            Outcome { value: 2, weight: 1 },
            Outcome { value: 3, weight: 1 },
            Outcome { value: 4, weight: 1 },
        ]
    );
}

#[test]
fn test_empty_sequence_into_outcomes() {
    assert_eq!(
        Value::Sequence(vec![]).into_outcomes().unwrap(),
        vec![Outcome { value: 0, weight: 1 }]
    );
}

#[test]
fn test_two_d4_into_outcomes_is_triangular() {
    assert_eq!(
        Value::Dice(Dice::new(2, Die::new_regular(4))).into_outcomes().unwrap(),
        vec![
            Outcome { value: 2, weight: 1 },
            Outcome { value: 3, weight: 2 },
            Outcome { value: 4, weight: 3 },
            Outcome { value: 5, weight: 4 },
            Outcome { value: 6, weight: 3 },
            Outcome { value: 7, weight: 2 },
            Outcome { value: 8, weight: 1 },
        ]
    );
}

#[test]
fn test_sequence_keeps_duplicates_unmerged() {
    assert_eq!(
        Value::Sequence(vec![2, 2, 2]).into_outcomes().unwrap(),
        vec![
            Outcome { value: 2, weight: 1 },
            Outcome { value: 2, weight: 1 },
            Outcome { value: 2, weight: 1 },
        ]
    );
}

#[test]
fn test_heterogeneous_denominators_scale_by_lcm() {
    // Chances with different denominators are scaled up by their least
    // common multiple (12) and the resulting weights share no factor.
    let die = Die::new(vec![
        (1, Chance::new(1, 2)),
        (2, Chance::new(1, 3)),
        (3, Chance::new(1, 12)),
        (4, Chance::new(1, 12)),
    ])
    .unwrap();
    assert_eq!(
        Value::Dice(Dice::new(1, die)).into_outcomes().unwrap(),
        vec![
            Outcome { value: 1, weight: 6 },
            Outcome { value: 2, weight: 4 },
            Outcome { value: 3, weight: 1 },
            Outcome { value: 4, weight: 1 },
        ]
    );
}
