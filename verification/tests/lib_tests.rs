use markovr::MarkovChain;
use markovr::ModelError;

#[test]
fn lib_empty() {
    let m0: MarkovChain<u64> = MarkovChain::new(0, &[]);
    assert_eq!(m0.generate(&[]).unwrap(), None);
    assert_eq!(m0.generate(&[1]).unwrap(), None);
    assert_eq!(m0.generate_deterministic(&[], 33).unwrap(), None);

    let m1: MarkovChain<u64> = MarkovChain::new(1, &[]);
    assert_eq!(m1.generate(&[1]).unwrap(), None);
    assert_eq!(m1.generate(&[1, 1]).unwrap(), None);
    assert_eq!(m1.generate_deterministic(&[1], 33).unwrap(), None);

    let m2: MarkovChain<u64> = MarkovChain::new(2, &[]);
    assert_eq!(m2.generate(&[1, 1]).unwrap(), None);
    assert_eq!(m2.generate(&[1, 1, 1]).unwrap(), None);
    assert_eq!(m2.generate_deterministic(&[1, 1], 33).unwrap(), None);
}

#[test]
fn lib_alphabet_first_order() {
    let mut m = MarkovChain::new(1, &[]);

    // this could have just been a number range,
    // but it serves as an example of how to encode
    // an alphabet
    let alpha: Vec<char> = "abcdefghijklmnopqrstuvwxyz".chars().collect();
    let encoded: Vec<u64> = alpha
        .clone()
        .into_iter()
        .enumerate()
        .map(|(i, _x)| i as u64)
        .collect();

    for i in 1..encoded.len() {
        m.train(&[encoded[i - 1]], encoded[i], 1).unwrap();
    }

    for i in 0..(encoded.len() - 1) {
        let next = m.generate(&[encoded[i]]).unwrap();
        match next {
            Some(v) => assert_eq!(v, encoded[i + 1]),
            None => panic!(
                "can't predict next letter after {} (encoded as {})",
                alpha[i], encoded[i]
            ),
        };
    }
}

#[test]
fn lib_alphabet_second_order() {
    let mut m = MarkovChain::new(2, &[]);

    // this could have just been a number range,
    // but it serves as an example of how to encode
    // an alphabet
    let alpha: Vec<char> = "abcdefghijklmnopqrstuvwxyz".chars().collect();
    let encoded: Vec<u64> = (0..alpha.len()).map(|x| x as u64).collect();

    for i in 2..encoded.len() {
        m.train(&[encoded[i - 2], encoded[i - 1]], encoded[i], 1).unwrap();
    }

    for i in 1..(encoded.len() - 1) {
        let next = m.generate(&[encoded[i - 1], encoded[i]]).unwrap();
        match next {
            Some(v) => assert_eq!(v, encoded[i + 1]),
            None => panic!(
                "can't predict next letter after {} (encoded as {})",
                alpha[i], encoded[i]
            ),
        };
    }
}

#[test]
fn alphabet_deterministic_and_probabilities() {
    // A first-order model trained on consecutive letter pairs produces each
    // letter's successor whatever the draw value, produces nothing after the
    // last letter, and reports the successor's probability as 1.
    let mut m = MarkovChain::new(1, &[]);
    let alpha: Vec<char> = "abcdefghijklmnopqrstuvwxyz".chars().collect();
    for i in 1..alpha.len() {
        m.train(&[alpha[i - 1]], alpha[i], 1).unwrap();
    }
    for i in 0..(alpha.len() - 1) {
        for seed in [0u64, 1, 7, 33, u64::MAX] {
            assert_eq!(
                m.generate_deterministic(&[alpha[i]], seed).unwrap(),
                Some(alpha[i + 1])
            );
        }
        assert_eq!(m.generate(&[alpha[i]]).unwrap(), Some(alpha[i + 1]));
    }
    assert_eq!(m.generate(&['z']).unwrap(), None);
    assert_eq!(m.generate_deterministic(&['z'], 5).unwrap(), None);

    let py = m.probability(&[Some('y')], 'z').unwrap();
    assert_eq!(py.numerator as f32 / py.denominator as f32, 1.0);
    let pa = m.probability(&[Some('a')], 'z').unwrap();
    assert_eq!(pa.numerator as f32 / pa.denominator as f32, 0.0);
}

#[test]
fn wildcard_position_answers_partial_context() {
    // Order 2 with position 0 optional: trained once on (X, Y) -> Z, the
    // partial context (unknown, Y) yields Z although that exact partial
    // pattern was never handed to train.
    let mut m = MarkovChain::new(2, &[0]);
    m.train(&[10u64, 20u64], 30u64, 1).unwrap();
    for seed in [0u64, 1, 2, 99, u64::MAX] {
        assert_eq!(
            m.generate_deterministic_from_partial(&[None, Some(20)], seed).unwrap(),
            Some(30)
        );
    }
    assert_eq!(m.generate_from_partial(&[None, Some(20)]).unwrap(), Some(30));
    // the exact context still answers too
    assert_eq!(m.generate_deterministic(&[10, 20], 0).unwrap(), Some(30));
    // an unrelated partial context was never trained
    assert_eq!(
        m.generate_deterministic_from_partial(&[None, Some(21)], 0).unwrap(),
        None
    );
}

#[test]
fn optional_positions_filtered_and_deduplicated() {
    // Positions at or past the order are silently dropped; a repeated
    // position counts once, so the weight under the wildcard key is the
    // weight that was trained, not double.
    let mut m = MarkovChain::new(1, &[0, 0, 5]);
    m.train(&[3u64], 4u64, 1).unwrap();
    let p = m.probability(&[None], 4).unwrap();
    assert_eq!(p.numerator, 1);
    assert_eq!(p.denominator, 1);
    assert_eq!(m.generate_deterministic_from_partial(&[None], 0).unwrap(), Some(4));
}

#[test]
fn order_zero_is_a_plain_sampler() {
    let mut m = MarkovChain::new(0, &[]);
    m.train(&[], 7u64, 2).unwrap();
    m.train(&[], 9u64, 1).unwrap();
    assert_eq!(m.generate_deterministic(&[], 0).unwrap(), Some(7));
    assert_eq!(m.generate_deterministic(&[], 1).unwrap(), Some(7));
    assert_eq!(m.generate_deterministic(&[], 2).unwrap(), Some(9));
    assert_eq!(m.generate_deterministic(&[], 3).unwrap(), Some(7)); // wrapped
    let p = m.probability(&[], 7).unwrap();
    assert_eq!(p.numerator, 2);
    assert_eq!(p.denominator, 3);
}

#[test]
fn undersized_window_rejected() {
    let mut m: MarkovChain<u64> = MarkovChain::new(2, &[]);
    assert_eq!(m.train(&[1], 2, 1), Err(ModelError::UndersizedWindow));
    assert_eq!(m.generate(&[1]), Err(ModelError::UndersizedWindow));
    assert_eq!(m.generate_deterministic(&[], 0), Err(ModelError::UndersizedWindow));
    assert_eq!(
        m.generate_deterministic_from_partial(&[Some(1)], 0),
        Err(ModelError::UndersizedWindow)
    );
    assert_eq!(m.probability(&[Some(1)], 2), Err(ModelError::UndersizedWindow));
    // a window of exactly the order is fine
    m.train(&[1, 2], 3, 1).unwrap();
    assert_eq!(m.generate_deterministic(&[1, 2], 0).unwrap(), Some(3));
}

#[test]
fn delta_and_capacity_errors_reported() {
    let mut m: MarkovChain<u64> = MarkovChain::new(1, &[]);
    assert_eq!(m.train(&[1], 2, i32::MIN), Err(ModelError::WeightDeltaOverflow));

    // 64 optional positions cannot be enumerated
    let positions: Vec<usize> = (0..64).collect();
    let mut wide: MarkovChain<u64> = MarkovChain::new(100, &positions);
    let window: Vec<u64> = (0..100).collect();
    assert_eq!(wide.train(&window, 7, 1), Err(ModelError::CapacityExceeded));
}

#[test]
fn training_order_does_not_change_content() {
    // Training the same transitions forwards and backwards gives
    // content-equal models.
    let mut fwd = MarkovChain::new(1, &[]);
    let mut rev = MarkovChain::new(1, &[]);
    let alpha: Vec<char> = "abcdefghijklmnopqrstuvwxyz".chars().collect();
    for i in 1..alpha.len() {
        fwd.train(&[alpha[i - 1]], alpha[i], 1).unwrap();
    }
    for i in (1..alpha.len()).rev() {
        rev.train(&[alpha[i - 1]], alpha[i], 1).unwrap();
    }
    assert!(fwd.content_eq(&rev));
    assert!(rev.content_eq(&fwd));
}

#[test]
fn data_round_trip_preserves_content() {
    let mut m = MarkovChain::new(2, &[0]);
    m.train(&[1u64, 2u64], 3u64, 2).unwrap();
    m.train(&[1u64, 2u64], 4u64, 1).unwrap();
    m.train(&[5u64, 2u64], 3u64, 1).unwrap();
    let data = m.to_data();
    let back = MarkovChain::from_data(&data).unwrap();
    assert!(back.content_eq(&m));
    assert_eq!(back.generate_deterministic(&[1, 2], 0).unwrap(), Some(3));
    let p = back.probability(&[None, Some(2)], 3).unwrap();
    assert_eq!(p.numerator, 3);
    assert_eq!(p.denominator, 4);
}

#[test]
fn invalid_data_rejected() {
    // a key whose length does not match the order
    let bad = markovr::ModelData::<u64> {
        order: 2,
        optional_elements: vec![],
        entries: vec![(vec![Some(1)], vec![])],
    };
    assert!(MarkovChain::from_data(&bad).is_none());

    // an optional position at the order
    let bad2 = markovr::ModelData::<u64> {
        order: 1,
        optional_elements: vec![1],
        entries: vec![],
    };
    assert!(MarkovChain::from_data(&bad2).is_none());

    // the same key twice
    let bad3 = markovr::ModelData::<u64> {
        order: 1,
        optional_elements: vec![],
        entries: vec![(vec![Some(1)], vec![]), (vec![Some(1)], vec![])],
    };
    assert!(MarkovChain::from_data(&bad3).is_none());

    // the same element twice under one key
    let bad4 = markovr::ModelData::<u64> {
        order: 1,
        optional_elements: vec![],
        entries: vec![(
            vec![Some(1)],
            vec![
                markovr::die::WeightedSide { element: 2u64, weight: 1 },
                markovr::die::WeightedSide { element: 2u64, weight: 3 },
            ],
        )],
    };
    assert!(MarkovChain::from_data(&bad4).is_none());

    // a total weight past u64::MAX
    let bad5 = markovr::ModelData::<u64> {
        order: 1,
        optional_elements: vec![],
        entries: vec![(
            vec![Some(1)],
            vec![
                markovr::die::WeightedSide { element: 2u64, weight: u64::MAX },
                markovr::die::WeightedSide { element: 3u64, weight: 1 },
            ],
        )],
    };
    assert!(MarkovChain::from_data(&bad5).is_none());
}
