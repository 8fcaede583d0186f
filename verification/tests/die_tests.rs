use markovr::die::WeightedDie;
use markovr::die::WeightedSide;
use markovr::ModelError;

fn w(n: u64) -> Option<u64> {
    Some(n)
}

#[test]
fn die_empty() {
    let c: WeightedDie<u64> = WeightedDie::new(vec![]);
    assert_eq!(c.roll(Some(0)), None);
}

#[test]
fn one_from_insertion() {
    let mut c = WeightedDie::new(vec![]);
    c.modify(99, 3).unwrap();
    assert_eq!(c.roll(Some(0)), w(99));
    assert_eq!(c.roll(Some(1)), w(99));
    assert_eq!(c.roll(Some(2)), w(99));
}

#[test]
fn coin() {
    let mut c = WeightedDie::new(vec![]);
    c.modify(1, 1).unwrap();
    c.modify(2, 1).unwrap();

    assert_eq!(c.len(), 2);

    assert_eq!(c.roll(Some(0)), w(1));
    assert_eq!(c.roll(Some(1)), w(2));
    assert_eq!(c.roll(Some(2)), w(1)); // rolled over
}

#[test]
fn six_sided_die() {
    let mut c = WeightedDie::new(vec![]);
    c.modify(1, 1).unwrap();
    c.modify(2, 1).unwrap();
    c.modify(3, 1).unwrap();
    c.modify(4, 1).unwrap();
    c.modify(5, 1).unwrap();
    c.modify(6, 1).unwrap();

    assert_eq!(c.len(), 6);

    assert_eq!(c.roll(Some(0)), w(1));
    assert_eq!(c.roll(Some(1)), w(2));
    assert_eq!(c.roll(Some(2)), w(3));
    assert_eq!(c.roll(Some(3)), w(4));
    assert_eq!(c.roll(Some(4)), w(5));
    assert_eq!(c.roll(Some(5)), w(6));
    assert_eq!(c.roll(Some(6)), w(1)); // rolled over
}

#[test]
fn coin_with_edge() {
    let mut c = WeightedDie::new(vec![]);
    c.modify(1, 100).unwrap();
    c.modify(2, 1).unwrap();
    c.modify(3, 100).unwrap();

    assert_eq!(c.len(), 3);

    assert_eq!(c.roll(Some(0)), w(1));
    assert_eq!(c.roll(Some(98)), w(1));
    assert_eq!(c.roll(Some(99)), w(1));
    assert_eq!(c.roll(Some(100)), w(2));
    assert_eq!(c.roll(Some(101)), w(3));
    assert_eq!(c.roll(Some(200)), w(3));
    assert_eq!(c.roll(Some(230)), w(1)); // rolled over
}

#[test]
fn modified_weight() {
    let mut c = WeightedDie::new(vec![]);
    c.modify(1, 10).unwrap();
    c.modify(2, 10).unwrap();
    c.modify(1, 10).unwrap();
    c.modify(3, 10).unwrap();
    c.modify(2, -5).unwrap();
    c.modify(3, -10).unwrap();
    // at this point, we have (1, 20) and (2, 5).

    assert_eq!(c.roll(Some(0)), w(1));
    assert_eq!(c.roll(Some(9)), w(1));
    assert_eq!(c.roll(Some(19)), w(1));
    assert_eq!(c.roll(Some(20)), w(2));
    assert_eq!(c.roll(Some(29)), w(1)); // rolled over
}

#[test]
fn get_prob() {
    let mut c = WeightedDie::new(vec![]);
    c.modify(1, 10).unwrap();
    c.modify(2, 10).unwrap();
    c.modify(1, 10).unwrap();
    c.modify(3, 10).unwrap();
    c.modify(2, -5).unwrap();
    c.modify(3, -10).unwrap();
    // at this point, we have (1, 20) and (2, 5).

    let tmp = c.get_probability(1);
    assert_eq!(tmp.numerator as f32 / tmp.denominator as f32, 20.0 / 25.0);
    let p2 = c.get_probability(2);
    assert_eq!(p2.numerator as f32 / p2.denominator as f32, 5.0 / 25.0);
    let p9 = c.get_probability(9);
    assert_eq!(p9.numerator as f32 / p9.denominator as f32, 0.0);
}

#[test]
fn weights_follow_net_deltas() {
    // The total weight is the net sum of the applied deltas, each element
    // clamped so it never goes negative; an element whose weight is gone is
    // no longer enumerated.
    let mut c = WeightedDie::new(vec![]);
    c.modify(1, 10).unwrap();
    c.modify(2, 10).unwrap();
    c.modify(1, 10).unwrap();
    c.modify(3, 10).unwrap();
    c.modify(2, -5).unwrap();
    c.modify(3, -10).unwrap();

    assert_eq!(c.total_weight(), 25);
    assert_eq!(c.weight(1), 20);
    assert_eq!(c.weight(2), 5);
    assert_eq!(c.weight(3), 0);
    assert_eq!(c.len(), 2);

    // taking more than the remaining weight clamps at zero
    c.modify(2, -100).unwrap();
    assert_eq!(c.weight(2), 0);
    assert_eq!(c.total_weight(), 20);

    // a fresh element with a non-positive delta stays absent
    c.modify(4, -3).unwrap();
    c.modify(5, 0).unwrap();
    assert_eq!(c.weight(4), 0);
    assert_eq!(c.weight(5), 0);
    assert_eq!(c.len(), 1);
}

#[test]
fn draws_partition_by_weight() {
    // Explicit draws are deterministic: 0..19 land on the element of weight
    // 20, 20..24 on the element of weight 5, and 25 wraps around to 0.
    let mut c = WeightedDie::new(vec![]);
    c.modify(10, 20).unwrap();
    c.modify(11, 5).unwrap();
    for v in 0..20u64 {
        assert_eq!(c.roll(Some(v)), Some(10));
    }
    for v in 20..25u64 {
        assert_eq!(c.roll(Some(v)), Some(11));
    }
    assert_eq!(c.roll(Some(25)), c.roll(Some(0)));
}

#[test]
fn construct_from_sides() {
    let c = WeightedDie::new(vec![
        WeightedSide { element: 5u64, weight: 2 },
        WeightedSide { element: 7u64, weight: 3 },
        WeightedSide { element: 9u64, weight: 0 },
    ]);
    assert_eq!(c.len(), 2); // the weight-0 side carries nothing
    assert_eq!(c.roll(Some(0)), Some(5));
    assert_eq!(c.roll(Some(1)), Some(5));
    assert_eq!(c.roll(Some(2)), Some(7));
    assert_eq!(c.roll(Some(4)), Some(7));
    assert_eq!(c.weight(9), 0);
    assert_eq!(c.total_weight(), 5);
}

#[test]
fn remove_side() {
    let mut c = WeightedDie::new(vec![]);
    c.modify(1, 20).unwrap();
    c.modify(2, 5).unwrap();
    let gone = c.remove(2).unwrap();
    assert_eq!(gone.element, 2);
    assert_eq!(gone.weight, 5);
    assert_eq!(c.total_weight(), 20);
    assert_eq!(c.len(), 1);
    assert!(c.remove(2).is_none());
    assert!(c.remove(42).is_none());
}

#[test]
fn delta_magnitude_overflow_reported() {
    let mut c = WeightedDie::new(vec![]);
    c.modify(1, 10).unwrap();
    assert_eq!(c.modify(1, i32::MIN), Err(ModelError::WeightDeltaOverflow));
    // the die is untouched
    assert_eq!(c.weight(1), 10);
}

#[test]
fn random_roll_respects_weights() {
    // A random draw is taken below the total weight, so a single face is
    // the only possible outcome, and faces of weight zero never come up.
    let mut single = WeightedDie::new(vec![]);
    single.modify(42, 1).unwrap();
    for _ in 0..50 {
        assert_eq!(single.roll(None), Some(42));
    }

    let mut pair = WeightedDie::new(vec![]);
    pair.modify(1, 3).unwrap();
    pair.modify(2, 2).unwrap();
    pair.modify(2, -2).unwrap(); // 2 is gone again
    for _ in 0..50 {
        assert_eq!(pair.roll(None), Some(1));
    }
}
