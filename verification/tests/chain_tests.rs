use markovr::chain::MarkovChain;
use markovr::ModelError;

#[test]
fn chain_window_truncated_to_order() {
    // Only the last `order` elements of the window count.
    let mut m = MarkovChain::new(1);
    m.train(&[9, 1], 2, 1).unwrap();
    assert_eq!(m.generate(&[0, 1], Some(0)).unwrap(), Some(2));
    assert_eq!(m.generate(&[1], Some(0)).unwrap(), Some(2));
    assert_eq!(m.generate(&[9], Some(0)).unwrap(), None);
}

#[test]
fn chain_probability_fractions() {
    let mut m = MarkovChain::new(1);
    m.train(&[1], 2, 20).unwrap();
    m.train(&[1], 3, 5).unwrap();
    let p2 = m.probability(&[1], 2).unwrap();
    assert_eq!((p2.numerator, p2.denominator), (4, 5));
    let p3 = m.probability(&[1], 3).unwrap();
    assert_eq!((p3.numerator, p3.denominator), (1, 5));
    let p9 = m.probability(&[1], 9).unwrap();
    assert_eq!((p9.numerator, p9.denominator), (0, 1));
    let unknown = m.probability(&[4], 2).unwrap();
    assert_eq!((unknown.numerator, unknown.denominator), (0, 1));
}

#[test]
fn chain_undersized_window_rejected() {
    let mut m = MarkovChain::new(2);
    assert_eq!(m.train(&[1], 2, 1), Err(ModelError::UndersizedWindow));
    assert_eq!(m.generate(&[1], Some(0)), Err(ModelError::UndersizedWindow));
    assert_eq!(m.probability(&[1], 2), Err(ModelError::UndersizedWindow));
}

#[test]
fn chain_empty() {
    let m0 = MarkovChain::new(0);
    assert_eq!(m0.generate(&[], None).unwrap(), None);
    assert_eq!(m0.generate(&[1], None).unwrap(), None);
    assert_eq!(m0.generate(&[], Some(33)).unwrap(), None);

    let m1 = MarkovChain::new(1);
    assert_eq!(m1.generate(&[1], None).unwrap(), None);
    assert_eq!(m1.generate(&[1, 1], None).unwrap(), None);
    assert_eq!(m1.generate(&[1], Some(33)).unwrap(), None);

    let m2 = MarkovChain::new(2);
    assert_eq!(m2.generate(&[1, 1], None).unwrap(), None);
    assert_eq!(m2.generate(&[1, 1, 1], None).unwrap(), None);
    assert_eq!(m2.generate(&[1, 1], Some(33)).unwrap(), None);
}

#[test]
fn chain_alphabet_first_order() {
    let mut m = MarkovChain::new(1);

    // this could have just been a number range,
    // but it serves as an example of how to encode
    // an alphabet
    let alpha: Vec<char> = "abcdefghijklmnopqrstuvwxyz".chars().collect();
    let encoded: Vec<u64> = alpha
        .clone()
        .into_iter()
        .enumerate()
        .map(|(i, _x)| i as u64)
        .collect();

    for i in 1..encoded.len() {
        m.train(&[encoded[i - 1]], encoded[i], 1).unwrap();
    }

    for i in 0..(encoded.len() - 1) {
        let next = m.generate(&[encoded[i]], None).unwrap();
        match next {
            Some(v) => assert_eq!(v, encoded[i + 1]),
            None => panic!(
                "can't predict next letter after {} (encoded as {})",
                alpha[i], encoded[i]
            ),
        };
    }
}

#[test]
fn chain_alphabet_second_order() {
    let mut m = MarkovChain::new(2);

    // this could have just been a number range,
    // but it serves as an example of how to encode
    // an alphabet
    let alpha: Vec<char> = "abcdefghijklmnopqrstuvwxyz".chars().collect();
    let encoded: Vec<u64> = alpha
        .clone()
        .into_iter()
        .enumerate()
        .map(|(i, _x)| i as u64)
        .collect();

    for i in 2..encoded.len() {
        m.train(&[encoded[i - 2], encoded[i - 1]], encoded[i], 1).unwrap();
    }

    for i in 1..(encoded.len() - 1) {
        let next = m.generate(&[encoded[i - 1], encoded[i]], None).unwrap();
        match next {
            Some(v) => assert_eq!(v, encoded[i + 1]),
            None => panic!(
                "can't predict next letter after {} (encoded as {})",
                alpha[i], encoded[i]
            ),
        };
    }
}
