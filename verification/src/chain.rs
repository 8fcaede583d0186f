use vstd::prelude::*;

use crate::die::Probability;
use crate::die::WeightedDie;
use crate::die::modify_pairs;
use crate::ModelError;

verus! {

/// One context of the chain: the key and the distribution of what follows it.
struct ChainEntry {
    key: Vec<u64>,
    die: WeightedDie<u64>,
}

/// A variable-order Markov chain over `u64` elements.
///
/// The chain keeps one weighted die per context key, the key being the
/// `order` most recent elements of the training window. Order 0 is a single
/// context-free die; order 1 is the usual chain that looks back one element.
pub struct MarkovChain {
    order: usize,
    probability_map: Vec<ChainEntry>,
}

/// The context key a window yields: its last `order` elements.
pub open spec fn spec_key(view: Seq<u64>, order: nat) -> Seq<u64> {
    view.subrange(view.len() - order, view.len() as int)
}

impl MarkovChain {
    /// The order of the chain.
    pub closed spec fn spec_order(self) -> nat {
        self.order as nat
    }

    /// The (key, die) entries, in insertion order.
    spec fn entries(self) -> Seq<ChainEntry> {
        self.probability_map@
    }

    /// How many context keys the chain holds.
    pub closed spec fn n_keys(self) -> nat {
        self.entries().len()
    }

    /// Structural invariant: every key has exactly `order` elements, keys are
    /// pairwise distinct, and every die is well formed.
    pub closed spec fn wf(self) -> bool {
        &&& (forall|i: int|
            0 <= i < self.n_keys() ==> (#[trigger] self.entries()[i]).key@.len()
                == self.spec_order() && self.entries()[i].die.wf())
        &&& (forall|i: int, j: int|
            0 <= i < j < self.n_keys() ==> self.entries()[i].key@ != self.entries()[j].key@)
    }

    /// Whether the chain holds a die for the key `k`.
    pub closed spec fn has_key(self, k: Seq<u64>) -> bool {
        exists|i: int| 0 <= i < self.n_keys() && (#[trigger] self.entries()[i]).key@ == k
    }

    /// The position of the key `k` (meaningful when `has_key(k)`; unique
    /// under `wf`).
    pub closed spec fn key_index(self, k: Seq<u64>) -> int {
        choose|i: int| 0 <= i < self.n_keys() && (#[trigger] self.entries()[i]).key@ == k
    }

    /// The die of the key `k`.
    pub closed spec fn die_for(self, k: Seq<u64>) -> WeightedDie<u64> {
        self.entries()[self.key_index(k)].die
    }

    /// Every die the chain holds is well formed.
    pub proof fn lemma_die_wf(self, k: Seq<u64>)
        requires
            self.wf(),
            self.has_key(k),
        ensures
            self.die_for(k).wf(),
    {
        let i = self.key_index(k);
        assert(0 <= i < self.n_keys() && self.entries()[i].key@ == k);
    }

    /// The entry at position `i` identifies itself: `key_index` and
    /// `die_for` agree with position `i`.
    proof fn lemma_key_at(self, i: int)
        requires
            self.wf(),
            0 <= i < self.n_keys(),
        ensures
            self.has_key(self.entries()[i].key@),
            self.key_index(self.entries()[i].key@) == i,
            self.die_for(self.entries()[i].key@) == self.entries()[i].die,
    {
        let k = self.entries()[i].key@;
        assert(self.has_key(k));
        let j = self.key_index(k);
        if j != i {
            if j < i {
                assert(self.entries()[j].key@ != self.entries()[i].key@);
            } else {
                assert(self.entries()[i].key@ != self.entries()[j].key@);
            }
        }
    }

    /// Creates a new Markov chain of the given order.
    ///
    /// Order 1 looks back one element; order 0 keeps no context at all and
    /// behaves as a single weighted die.
    pub fn new(order: usize) -> (r: Self)
        ensures
            r.wf(),
            r.spec_order() == order,
            r.n_keys() == 0,
            forall|k: Seq<u64>| !r.has_key(k),
    {
        MarkovChain { order, probability_map: Vec::new() }
    }

    /// The last `order` elements of `view`, as an owned key.
    fn to_key(order: usize, view: &[u64]) -> (r: Vec<u64>)
        requires
            view@.len() >= order,
        ensures
            r@ == spec_key(view@, order as nat),
    {
        let mut key: Vec<u64> = Vec::new();
        let start = view.len() - order;
        let mut i: usize = start;
        while i < view.len()
            invariant
                start == view@.len() - order,
                start <= i <= view@.len(),
                key@ =~= view@.subrange(start as int, i as int),
            decreases view@.len() - i,
        {
            key.push(view[i]);
            proof {
                assert(key@ =~= view@.subrange(start as int, i + 1));
            }
            i = i + 1;
        }
        key
    }

    /// The position of the entry whose key holds the same elements as `key`.
    fn find_entry(&self, key: &Vec<u64>) -> (r: Option<usize>)
        ensures
            match r {
                Some(i) => i < self.n_keys() && self.entries()[i as int].key@ == key@,
                None => !self.has_key(key@),
            },
    {
        let mut i: usize = 0;
        while i < self.probability_map.len()
            invariant
                i <= self.entries().len(),
                forall|j: int| 0 <= j < i ==> (#[trigger] self.entries()[j]).key@ != key@,
            decreases self.entries().len() - i,
        {
            if Self::keys_equal(&self.probability_map[i].key, key) {
                return Some(i);
            }
            i = i + 1;
        }
        None
    }

    /// Whether two keys hold the same elements.
    fn keys_equal(a: &Vec<u64>, b: &Vec<u64>) -> (r: bool)
        ensures
            r <==> a@ == b@,
    {
        if a.len() != b.len() {
            return false;
        }
        let mut i: usize = 0;
        while i < a.len()
            invariant
                a@.len() == b@.len(),
                i <= a@.len(),
                forall|j: int| 0 <= j < i ==> a@[j] == b@[j],
            decreases a@.len() - i,
        {
            if a[i] != b[i] {
                return false;
            }
            i = i + 1;
        }
        proof {
            assert(a@ =~= b@);
        }
        true
    }

    /// Feeds one observation into the chain: the last `order` elements of
    /// `view` form the context, and `result` is the element whose weight
    /// changes by `weight_delta` under that context.
    ///
    /// A window shorter than the order, a delta whose magnitude cannot be
    /// represented, and a delta that would push the context's total weight
    /// past `u64::MAX` are each reported as an error, and the chain is left
    /// unchanged.
    pub fn train(&mut self, view: &[u64], result: u64, weight_delta: i32) -> (r: Result<
        (),
        ModelError,
    >)
        requires
            old(self).wf(),
        ensures
            final(self).wf(),
            final(self).spec_order() == old(self).spec_order(),
            match r {
                Ok(()) => {
                    let k = spec_key(view@, old(self).spec_order());
                    &&& view@.len() >= old(self).spec_order()
                    &&& weight_delta != i32::MIN
                    &&& final(self).has_key(k)
                    &&& final(self).die_for(k).wf()
                    &&& final(self).die_for(k).pairs() == modify_pairs(
                        if old(self).has_key(k) {
                            old(self).die_for(k).pairs()
                        } else {
                            Seq::<(u64, int)>::empty()
                        },
                        result,
                        weight_delta as int,
                    )
                    &&& (forall|k2: Seq<u64>|
                        k2 != k ==> #[trigger] final(self).has_key(k2) == old(self).has_key(k2))
                    &&& (forall|k2: Seq<u64>|
                        k2 != k && old(self).has_key(k2) ==> #[trigger] final(self).die_for(k2)
                            == old(self).die_for(k2))
                },
                Err(e) => {
                    &&& final(self).n_keys() == old(self).n_keys()
                    &&& (forall|k2: Seq<u64>|
                        #[trigger] final(self).has_key(k2) == old(self).has_key(k2))
                    &&& (forall|k2: Seq<u64>|
                        old(self).has_key(k2) ==> #[trigger] final(self).die_for(k2) == old(
                            self,
                        ).die_for(k2))
                    &&& (e == ModelError::UndersizedWindow <==> view@.len() < old(
                        self,
                    ).spec_order())
                    &&& (e == ModelError::WeightDeltaOverflow <==> view@.len() >= old(
                        self,
                    ).spec_order() && weight_delta == i32::MIN)
                    &&& (e == ModelError::WeightOverflow ==> weight_delta > 0 && old(self).has_key(
                        spec_key(view@, old(self).spec_order()),
                    ) && old(self).die_for(spec_key(view@, old(self).spec_order())).total()
                        + weight_delta > u64::MAX)
                },
            },
            r is Err <==> (view@.len() < old(self).spec_order() || weight_delta == i32::MIN || (
            weight_delta > 0 && old(self).has_key(spec_key(view@, old(self).spec_order())) && old(
                self,
            ).die_for(spec_key(view@, old(self).spec_order())).total() + weight_delta
                > u64::MAX)),
    {
        if view.len() < self.order {
            return Err(ModelError::UndersizedWindow);
        }
        if weight_delta == i32::MIN {
            return Err(ModelError::WeightDeltaOverflow);
        }
        let key = Self::to_key(self.order, view);
        let found = self.find_entry(&key);
        match found {
            Some(i) => {
                proof {
                    old(self).lemma_key_at(i as int);
                }
                let res = self.probability_map[i].die.modify(result, weight_delta);
                match res {
                    Ok(()) => {
                        proof {
                            assert(self.entries()[i as int].key@ == key@);
                            assert forall|a: int, b: int|
                                0 <= a < b < self.n_keys() implies self.entries()[a].key@
                                != self.entries()[b].key@ by {
                                assert(old(self).entries()[a].key@ != old(
                                    self,
                                ).entries()[b].key@);
                            }
                            self.lemma_key_at(i as int);
                            assert forall|k2: Seq<u64>|
                                k2 != key@ implies #[trigger] self.has_key(k2) == old(
                                self,
                            ).has_key(k2) by {
                                if old(self).has_key(k2) {
                                    let j = old(self).key_index(k2);
                                    assert(self.entries()[j].key@ == k2);
                                } else {
                                    assert forall|j: int|
                                        0 <= j < self.n_keys() implies (
                                    #[trigger] self.entries()[j]).key@ != k2 by {
                                        assert(old(self).entries()[j].key@ != k2);
                                    }
                                }
                            }
                            assert forall|k2: Seq<u64>|
                                k2 != key@ && old(self).has_key(k2) implies #[trigger] self.die_for(
                                k2,
                            ) == old(self).die_for(k2) by {
                                let j = old(self).key_index(k2);
                                old(self).lemma_key_at(j);
                                self.lemma_key_at(j);
                            }
                        }
                        Ok(())
                    },
                    Err(e) => {
                        proof {
                            assert(self.entries() =~= old(self).entries());
                        }
                        Err(e)
                    },
                }
            },
            None => {
                let mut die = WeightedDie::<u64>::new(Vec::new());
                proof {
                    reveal(Seq::filter);
                    assert(die.pairs() =~= Seq::<(u64, int)>::empty());
                }
                let res = die.modify(result, weight_delta);
                match res {
                    Ok(()) => {},
                    Err(_) => {
                        proof {
                            assert(false);
                        }
                    },
                }
                let ghost a = *old(self);
                self.probability_map.push(ChainEntry { key, die });
                proof {
                    let n = a.n_keys() as int;
                    assert(self.entries()[n].key@ == key@);
                    assert(self.wf()) by {
                        assert forall|x: int, y: int|
                            0 <= x < y < self.n_keys() implies self.entries()[x].key@
                            != self.entries()[y].key@ by {
                            if y < n {
                                assert(a.entries()[x].key@ != a.entries()[y].key@);
                            } else {
                                assert(a.entries()[x].key@ != key@);
                            }
                        }
                    }
                    self.lemma_key_at(n);
                    assert forall|k2: Seq<u64>|
                        k2 != key@ implies #[trigger] self.has_key(k2) == a.has_key(k2) by {
                        if a.has_key(k2) {
                            let j = a.key_index(k2);
                            assert(self.entries()[j].key@ == k2);
                        } else {
                            assert forall|j: int|
                                0 <= j < self.n_keys() implies (
                            #[trigger] self.entries()[j]).key@ != k2 by {
                                if j < n {
                                    assert(a.entries()[j].key@ != k2);
                                }
                            }
                        }
                    }
                    assert forall|k2: Seq<u64>|
                        k2 != key@ && a.has_key(k2) implies #[trigger] self.die_for(k2)
                            == a.die_for(k2) by {
                        let j = a.key_index(k2);
                        a.lemma_key_at(j);
                        self.lemma_key_at(j);
                    }
                }
                Ok(())
            },
        }
    }

    /// Draws the next element after `view`, or nothing when the context was
    /// never trained or holds no weight. A caller-supplied `roll` makes the
    /// draw deterministic; with `None` a random draw is taken.
    pub fn generate(&self, view: &[u64], roll: Option<u64>) -> (r: Result<Option<u64>, ModelError>)
        requires
            self.wf(),
        ensures
            r is Err <==> view@.len() < self.spec_order(),
            r is Err ==> r == Err::<Option<u64>, ModelError>(ModelError::UndersizedWindow),
            match r {
                Ok(res) => {
                    let k = spec_key(view@, self.spec_order());
                    &&& (!self.has_key(k) ==> res is None)
                    &&& (self.has_key(k) ==> {
                        let d = self.die_for(k);
                        match roll {
                            Some(v) => res == (if d.total() == 0 {
                                None::<u64>
                            } else {
                                Some(d.select((v as int) % d.total()))
                            }),
                            None => {
                                &&& (d.total() == 0 ==> res is None)
                                &&& (d.total() > 0 ==> exists|p: int|
                                    0 <= p < d.total() && res == Some(d.select(p)))
                            },
                        }
                    })
                },
                Err(_) => true,
            },
    {
        if view.len() < self.order {
            return Err(ModelError::UndersizedWindow);
        }
        let key = Self::to_key(self.order, view);
        match self.find_entry(&key) {
            Some(i) => {
                proof {
                    self.lemma_key_at(i as int);
                }
                Ok(self.probability_map[i].die.roll(roll))
            },
            None => Ok(None),
        }
    }

    /// The probability of seeing `result` after `view`, as a reduced
    /// fraction. A context that was never trained, or an element the context
    /// never produced, has probability 0 (written 0/1).
    pub fn probability(&self, view: &[u64], result: u64) -> (r: Result<Probability, ModelError>)
        requires
            self.wf(),
        ensures
            r is Err <==> view@.len() < self.spec_order(),
            r is Err ==> r == Err::<Probability, ModelError>(ModelError::UndersizedWindow),
            match r {
                Ok(p) => {
                    let k = spec_key(view@, self.spec_order());
                    &&& p.denominator > 0
                    &&& (!self.has_key(k) ==> p == (Probability {
                        numerator: 0,
                        denominator: 1,
                    }))
                    &&& (self.has_key(k) ==> {
                        let d = self.die_for(k);
                        &&& (!d.has_elem(result) ==> p == (Probability {
                            numerator: 0,
                            denominator: 1,
                        }))
                        &&& (d.has_elem(result) ==> {
                            let g = crate::die::gcd_spec(
                                d.weight_of(result) as nat,
                                d.total() as nat,
                            );
                            &&& p.numerator == d.weight_of(result) as nat / g
                            &&& p.denominator == d.total() as nat / g
                        })
                    })
                },
                Err(_) => true,
            },
    {
        if view.len() < self.order {
            return Err(ModelError::UndersizedWindow);
        }
        let key = Self::to_key(self.order, view);
        match self.find_entry(&key) {
            Some(i) => {
                proof {
                    self.lemma_key_at(i as int);
                }
                Ok(self.probability_map[i].die.get_probability(result))
            },
            None => Ok(Probability { numerator: 0, denominator: 1 }),
        }
    }
}

} // verus!
