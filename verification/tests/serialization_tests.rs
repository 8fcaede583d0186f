use markovr::die::WeightedSide;
use markovr::MarkovChain;
use markovr::ModelData;

type PlainModel = (usize, Vec<usize>, Vec<(Vec<Option<char>>, Vec<(char, u64)>)>);

fn to_plain(m: &MarkovChain<char>) -> PlainModel {
    let data = m.to_data();
    let entries = data
        .entries
        .iter()
        .map(|(k, sides)| {
            (
                k.clone(),
                sides.iter().map(|s| (s.element, s.weight)).collect(),
            )
        })
        .collect();
    (data.order, data.optional_elements, entries)
}

fn from_plain(p: &PlainModel) -> MarkovChain<char> {
    let entries = p
        .2
        .iter()
        .map(|(k, sides)| {
            (
                k.clone(),
                sides
                    .iter()
                    .map(|(e, w)| WeightedSide { element: *e, weight: *w })
                    .collect(),
            )
        })
        .collect();
    let data = ModelData {
        order: p.0,
        optional_elements: p.1.clone(),
        entries,
    };
    MarkovChain::from_data(&data).unwrap()
}

fn assert_chain_eq(a: &MarkovChain<char>, b: &MarkovChain<char>) {
    assert!(a.content_eq(b));

    let a_s = ron::to_string(&to_plain(a)).unwrap();
    let b_s = ron::to_string(&to_plain(b)).unwrap();

    let a_p: PlainModel = ron::from_str(&a_s).unwrap();
    let b_p: PlainModel = ron::from_str(&b_s).unwrap();

    let a_de = from_plain(&a_p);
    let b_de = from_plain(&b_p);

    assert!(a_de.content_eq(a));
    assert!(b_de.content_eq(b));
    assert!(a_de.content_eq(&b_de));
}

#[test]
fn same_train_order_eq() {
    let mut m1 = MarkovChain::new(1, &[]);
    let mut m2 = MarkovChain::new(1, &[]);
    let alpha: Vec<char> = "abcdefghijklmnopqrstuvwxyz".chars().collect();
    for i in 1..alpha.len() {
        m1.train(&[alpha[i - 1]], alpha[i], 1).unwrap();
        m2.train(&[alpha[i - 1]], alpha[i], 1).unwrap();
    }
    assert_chain_eq(&m1, &m2);
}

#[test]
fn diff_train_order_eq() {
    let mut m1 = MarkovChain::new(1, &[]);
    let mut m2 = MarkovChain::new(1, &[]);
    let alpha: Vec<char> = "abcdefghijklmnopqrstuvwxyz".chars().collect();
    for i in 1..alpha.len() {
        m1.train(&[alpha[i - 1]], alpha[i], 1).unwrap();
        let rev = alpha.len() - i;
        m2.train(&[alpha[rev - 1]], alpha[rev], 1).unwrap();
    }
    assert_chain_eq(&m1, &m2);
}
