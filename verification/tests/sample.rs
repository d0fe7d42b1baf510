use rand::rngs::StdRng;
use rand::Rng;
use rand::SeedableRng;
use some_dice::outcome::Outcome;
use some_dice::sample::distribution::OutputDistribution;
use some_dice::sample::error::SampleError;

#[test]
fn test_new_errors() {
    assert!(matches!(OutputDistribution::new(vec![]), Err(SampleError::NoOutcomes)));

    // SampleError::TooManyOutcomes is impractical to test here

    assert!(matches!(
        OutputDistribution::new(vec![Outcome { value: 1, weight: 0 }]),
        Err(SampleError::NoWeight)
    ));

    assert!(matches!(
        OutputDistribution::new(vec![
            Outcome { value: 1, weight: usize::MAX },
            Outcome { value: 2, weight: 1 },
        ]),
        Err(SampleError::TooMuchWeight)
    ));

    // SampleError::InvalidWeight can't be created using this module
}

#[test]
fn test_sample() {
    let mut rng = StdRng::from_entropy();
    let value = rng.gen();
    let dist = OutputDistribution::new(vec![Outcome { value, weight: 1 }]).unwrap();

    assert_eq!(dist.sample(&mut rng), value);
}

#[test]
fn test_sample_many() {
    let mut rng = StdRng::from_entropy();
    let value = rng.gen();
    let dist = OutputDistribution::new(vec![Outcome { value, weight: 1 }]).unwrap();

    assert_eq!(dist.sample_many(5, &mut rng), vec![value; 5]);
}

#[test]
fn test_sample_n() {
    let mut rng = StdRng::from_entropy();
    let value = rng.gen();
    let dist = OutputDistribution::new(vec![Outcome { value, weight: 1 }]).unwrap();

    assert_eq!(dist.sample_n::<5>(&mut rng), [value; 5]);
}

#[test]
fn test_sample_iter() {
    let mut rng = StdRng::from_entropy();
    let value = rng.gen();
    let dist = OutputDistribution::new(vec![Outcome { value, weight: 1 }]).unwrap();

    let mut iter = dist.sample_iter(rng);
    let drawn = vec![iter.next(), iter.next(), iter.next(), iter.next(), iter.next()];
    assert_eq!(drawn, vec![value; 5]);
}

#[test]
fn test_sampling_determinism_under_seeded_rng() {
    let dist = OutputDistribution::new(vec![Outcome { value: 7, weight: 3 }]).unwrap();

    let mut rng = StdRng::seed_from_u64(42);
    assert_eq!(dist.sample(&mut rng), 7);
    assert_eq!(dist.sample_many(10, &mut rng), vec![7; 10]);
    assert_eq!(dist.sample_n::<4>(&mut rng), [7; 4]);
    let mut iter = dist.sample_iter(StdRng::seed_from_u64(42));
    assert_eq!(iter.next(), 7);
}

#[test]
fn test_sample_respects_zero_weight() {
    // A zero-weight value is never drawn, whatever the seed.
    let dist = OutputDistribution::new(vec![
        Outcome { value: 1, weight: 0 },
        Outcome { value: 2, weight: 5 },
    ])
    .unwrap();

    for seed in 0..20u64 {
        let mut rng = StdRng::seed_from_u64(seed);
        assert_eq!(dist.sample(&mut rng), 2);
    }
}

#[test]
fn test_weighted_sampling_stays_within_values() {
    let dist = OutputDistribution::new(vec![
        Outcome { value: -1, weight: 1 },
        Outcome { value: 3, weight: 2 },
        Outcome { value: 9, weight: 3 },
    ])
    .unwrap();

    let mut rng = StdRng::seed_from_u64(7);
    for drawn in dist.sample_many(100, &mut rng) {
        assert!(drawn == -1 || drawn == 3 || drawn == 9);
    }
}

#[test]
fn test_error_messages() {
    assert_eq!(
        SampleError::NoOutcomes.message(),
        "The output does not contain any outcomes"
    );
    assert_eq!(
        SampleError::TooManyOutcomes.message(),
        "The output contains too many outcomes"
    );
    assert_eq!(
        SampleError::NoWeight.message(),
        "The output contains only outcomes with weight of zero"
    );
    assert_eq!(
        SampleError::TooMuchWeight.message(),
        "The output contains weights that overflow"
    );
    assert_eq!(
        SampleError::InvalidWeight.message(),
        "The output contains an outcome with an invalid weight"
    );
}
