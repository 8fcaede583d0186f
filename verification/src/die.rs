use vstd::prelude::*;

use crate::Element;
use crate::ModelError;

verus! {

/// One face of a weighted die: an element together with its weight.
#[derive(Clone, Copy, Debug)]
pub struct WeightedSide<T> {
    pub element: T,
    pub weight: u64,
}

/// A weighted die: a mutable discrete distribution over unique elements.
///
/// Each element carries a positive integer weight. The die keeps, next to the
/// elements, the sequence of running (cumulative) weights, so a weighted draw
/// is a binary search over that sequence.
#[derive(Debug)]
pub struct WeightedDie<T: Element> {
    /// The faces, in insertion order, pairwise distinct.
    items: Vec<T>,
    /// `running_weight[i]` is the sum of the weights of `items[0..=i]`.
    running_weight: Vec<u64>,
}

/// The sum of the weights of a sequence of sides.
pub open spec fn sum_weights<T>(s: Seq<WeightedSide<T>>) -> int
    decreases s.len(),
{
    if s.len() == 0 {
        0
    } else {
        sum_weights(s.drop_last()) + s.last().weight
    }
}

/// The sides with positive weight, in order; weight-0 sides carry nothing.
pub open spec fn positive_sides<T>(s: Seq<WeightedSide<T>>) -> Seq<WeightedSide<T>> {
    s.filter(|x: WeightedSide<T>| x.weight > 0)
}

/// The (element, weight) pairs of the positively weighted sides, in order.
pub open spec fn side_pairs<T>(s: Seq<WeightedSide<T>>) -> Seq<(T, int)> {
    positive_sides(s).map_values(|x: WeightedSide<T>| (x.element, x.weight as int))
}

proof fn lemma_positive_sides_push<T>(s: Seq<WeightedSide<T>>, x: WeightedSide<T>)
    ensures
        positive_sides(s.push(x)) == if x.weight > 0 {
            positive_sides(s).push(x)
        } else {
            positive_sides(s)
        },
{
    reveal(Seq::filter);
    assert(s.push(x).drop_last() =~= s);
}

/// Whether some pair in `p` holds the element `e`.
pub open spec fn pairs_has<T>(p: Seq<(T, int)>, e: T) -> bool {
    exists|i: int| 0 <= i < p.len() && p[i].0 == e
}

/// The index of the pair holding `e` (unique when the elements are distinct).
pub open spec fn pairs_index<T>(p: Seq<(T, int)>, e: T) -> int {
    choose|i: int| 0 <= i < p.len() && p[i].0 == e
}

/// The weight `p` gives to `e`, or 0 when no pair holds it.
pub open spec fn pairs_weight<T>(p: Seq<(T, int)>, e: T) -> int {
    if pairs_has(p, e) {
        p[pairs_index(p, e)].1
    } else {
        0
    }
}

/// A weight after a delta, clamped so it never goes negative.
pub open spec fn clamped<T>(p: Seq<(T, int)>, e: T, delta: int) -> int {
    if pairs_weight(p, e) + delta > 0 {
        pairs_weight(p, e) + delta
    } else {
        0
    }
}

/// What one `modify(e, delta)` call does to the (element, weight) pairs of a
/// sampler: grow or shrink the matching pair, drop it when the whole weight
/// is gone, append a new pair for an unseen element and positive delta, and
/// do nothing for an unseen element otherwise.
pub open spec fn modify_pairs<T>(p: Seq<(T, int)>, e: T, delta: int) -> Seq<(T, int)> {
    if pairs_has(p, e) {
        let i = pairs_index(p, e);
        if delta < 0 && p[i].1 + delta <= 0 {
            p.remove(i)
        } else {
            p.update(i, (e, p[i].1 + delta))
        }
    } else if delta > 0 {
        p.push((e, delta))
    } else {
        p
    }
}

/// Whether no element appears in two pairs.
pub open spec fn pairs_distinct<T>(p: Seq<(T, int)>) -> bool {
    forall|i: int, j: int| 0 <= i < j < p.len() ==> p[i].0 != p[j].0
}

/// Whether every pair carries a positive weight.
pub open spec fn pairs_positive<T>(p: Seq<(T, int)>) -> bool {
    forall|i: int| 0 <= i < p.len() ==> (#[trigger] p[i]).1 > 0
}

/// The pair at index `i` identifies itself under distinctness.
pub proof fn lemma_pairs_index_at<T>(p: Seq<(T, int)>, i: int)
    requires
        pairs_distinct(p),
        0 <= i < p.len(),
    ensures
        pairs_has(p, p[i].0),
        pairs_index(p, p[i].0) == i,
        pairs_weight(p, p[i].0) == p[i].1,
{
    assert(pairs_has(p, p[i].0));
    let j = pairs_index(p, p[i].0);
    if j != i {
        if j < i {
            assert(p[j].0 != p[i].0);
        } else {
            assert(p[i].0 != p[j].0);
        }
    }
}

/// What one modification does to the weights: the touched element's weight
/// is clamped at zero, every other element keeps its weight, and the pairs
/// stay distinct and positive.
pub proof fn lemma_modify_pairs_content<T>(p: Seq<(T, int)>, e: T, delta: int)
    requires
        pairs_distinct(p),
        pairs_positive(p),
    ensures
        pairs_distinct(modify_pairs(p, e, delta)),
        pairs_positive(modify_pairs(p, e, delta)),
        pairs_weight(modify_pairs(p, e, delta), e) == clamped(p, e, delta),
        forall|e2: T|
            e2 != e ==> #[trigger] pairs_weight(modify_pairs(p, e, delta), e2) == pairs_weight(
                p,
                e2,
            ),
{
    let q = modify_pairs(p, e, delta);
    if pairs_has(p, e) {
        let i = pairs_index(p, e);
        assert(0 <= i < p.len() && p[i].0 == e);
        lemma_pairs_index_at(p, i);
        if delta < 0 && p[i].1 + delta <= 0 {
            p.remove_ensures(i);
            assert(pairs_distinct(q)) by {
                assert forall|a: int, b: int|
                    0 <= a < b < q.len() implies q[a].0 != q[b].0 by {
                    let a2 = if a < i {
                        a
                    } else {
                        a + 1
                    };
                    let b2 = if b < i {
                        b
                    } else {
                        b + 1
                    };
                    assert(q[a] == p[a2] && q[b] == p[b2]);
                    assert(p[a2].0 != p[b2].0);
                }
            }
            assert(!pairs_has(q, e)) by {
                assert forall|a: int| 0 <= a < q.len() implies (#[trigger] q[a]).0 != e by {
                    if a < i {
                        assert(q[a] == p[a]);
                        assert(p[a].0 != p[i].0);
                    } else {
                        assert(q[a] == p[a + 1]);
                        assert(p[i].0 != p[a + 1].0);
                    }
                }
            }
            assert forall|e2: T|
                e2 != e implies #[trigger] pairs_weight(q, e2) == pairs_weight(p, e2) by {
                if pairs_has(p, e2) {
                    let j = pairs_index(p, e2);
                    assert(0 <= j < p.len() && p[j].0 == e2);
                    assert(j != i);
                    let jn = if j < i {
                        j
                    } else {
                        j - 1
                    };
                    assert(q[jn] == p[j]);
                    lemma_pairs_index_at(q, jn);
                } else {
                    assert forall|a: int| 0 <= a < q.len() implies (#[trigger] q[a]).0 != e2 by {
                        if a < i {
                            assert(q[a] == p[a]);
                        } else {
                            assert(q[a] == p[a + 1]);
                        }
                    }
                }
            }
        } else {
            assert(q == p.update(i, (e, p[i].1 + delta)));
            assert(pairs_distinct(q)) by {
                assert forall|a: int, b: int|
                    0 <= a < b < q.len() implies q[a].0 != q[b].0 by {
                    assert(q[a].0 == p[a].0 && q[b].0 == p[b].0);
                }
            }
            assert(pairs_positive(q)) by {
                assert forall|a: int| 0 <= a < q.len() implies (#[trigger] q[a]).1 > 0 by {
                    assert(p[a].1 > 0);
                }
            }
            lemma_pairs_index_at(q, i);
            assert forall|e2: T|
                e2 != e implies #[trigger] pairs_weight(q, e2) == pairs_weight(p, e2) by {
                if pairs_has(p, e2) {
                    let j = pairs_index(p, e2);
                    assert(0 <= j < p.len() && p[j].0 == e2);
                    assert(j != i);
                    assert(q[j] == p[j]);
                    lemma_pairs_index_at(q, j);
                } else {
                    assert forall|a: int| 0 <= a < q.len() implies (#[trigger] q[a]).0 != e2 by {
                        assert(q[a].0 == p[a].0);
                    }
                }
            }
        }
    } else {
        if delta > 0 {
            assert(q == p.push((e, delta)));
            assert forall|a: int| 0 <= a < p.len() implies (#[trigger] p[a]).0 != e by {}
            assert(pairs_distinct(q)) by {
                assert forall|a: int, b: int|
                    0 <= a < b < q.len() implies q[a].0 != q[b].0 by {
                    if b < p.len() {
                        assert(q[a] == p[a] && q[b] == p[b]);
                    } else {
                        assert(q[a] == p[a] && q[b] == (e, delta));
                    }
                }
            }
            assert(pairs_positive(q)) by {
                assert forall|a: int| 0 <= a < q.len() implies (#[trigger] q[a]).1 > 0 by {
                    if a < p.len() {
                        assert(p[a].1 > 0);
                    }
                }
            }
            lemma_pairs_index_at(q, p.len() as int);
            assert forall|e2: T|
                e2 != e implies #[trigger] pairs_weight(q, e2) == pairs_weight(p, e2) by {
                if pairs_has(p, e2) {
                    let j = pairs_index(p, e2);
                    assert(0 <= j < p.len() && p[j].0 == e2);
                    assert(q[j] == p[j]);
                    lemma_pairs_index_at(q, j);
                } else {
                    assert forall|a: int| 0 <= a < q.len() implies (#[trigger] q[a]).0 != e2 by {
                        if a < p.len() {
                            assert(q[a] == p[a]);
                        }
                    }
                }
            }
        } else {
            assert(q == p);
        }
    }
}

/// Feeding two observations to a sampler in either order leaves every
/// element with the same weight: the order of training calls with positive
/// deltas does not affect the distribution.
pub proof fn lemma_modify_pairs_commute<T>(p: Seq<(T, int)>, e1: T, d1: int, e2: T, d2: int)
    requires
        pairs_distinct(p),
        pairs_positive(p),
        d1 > 0,
        d2 > 0,
    ensures
        forall|e: T|
            #[trigger] pairs_weight(modify_pairs(modify_pairs(p, e1, d1), e2, d2), e)
                == pairs_weight(modify_pairs(modify_pairs(p, e2, d2), e1, d1), e),
{
    let p12 = modify_pairs(modify_pairs(p, e1, d1), e2, d2);
    let p21 = modify_pairs(modify_pairs(p, e2, d2), e1, d1);
    lemma_modify_pairs_content(p, e1, d1);
    lemma_modify_pairs_content(modify_pairs(p, e1, d1), e2, d2);
    lemma_modify_pairs_content(p, e2, d2);
    lemma_modify_pairs_content(modify_pairs(p, e2, d2), e1, d1);
    assert forall|e: T|
        #[trigger] pairs_weight(p12, e) == pairs_weight(p21, e) by {
        if e == e1 && e == e2 {
        } else if e == e1 {
            assert(pairs_weight(p12, e1) == clamped(p, e1, d1));
            assert(pairs_weight(p21, e1) == clamped(modify_pairs(p, e2, d2), e1, d1));
        } else if e == e2 {
            assert(pairs_weight(p12, e2) == clamped(modify_pairs(p, e1, d1), e2, d2));
            assert(pairs_weight(p21, e2) == clamped(p, e2, d2));
        } else {
        }
    }
}

/// A whole run of modifications, applied left to right: each observation
/// names an element and the (positive) weight it gains.
pub open spec fn apply_observations<T>(p: Seq<(T, int)>, obs: Seq<(T, int)>) -> Seq<(T, int)>
    decreases obs.len(),
{
    if obs.len() == 0 {
        p
    } else {
        modify_pairs(apply_observations(p, obs.drop_last()), obs.last().0, obs.last().1)
    }
}

/// Whether every observation carries a positive delta.
pub open spec fn positive_observations<T>(obs: Seq<(T, int)>) -> bool {
    forall|i: int| 0 <= i < obs.len() ==> (#[trigger] obs[i]).1 > 0
}

/// The net delta a run of observations applies to one element.
pub open spec fn delta_sum<T>(obs: Seq<(T, int)>, e: T) -> int
    decreases obs.len(),
{
    if obs.len() == 0 {
        0
    } else {
        delta_sum(obs.drop_last(), e) + if obs.last().0 == e {
            obs.last().1
        } else {
            0
        }
    }
}

/// Under positive deltas, a run of modifications leaves each element with
/// its old weight plus the net delta the run applies to it — whatever order
/// the observations interleave in.
pub proof fn lemma_apply_observations_weight<T>(p: Seq<(T, int)>, obs: Seq<(T, int)>, e: T)
    requires
        pairs_distinct(p),
        pairs_positive(p),
        positive_observations(obs),
    ensures
        pairs_distinct(apply_observations(p, obs)),
        pairs_positive(apply_observations(p, obs)),
        pairs_weight(apply_observations(p, obs), e) == pairs_weight(p, e) + delta_sum(obs, e),
    decreases obs.len(),
{
    if obs.len() == 0 {
    } else {
        let front = obs.drop_last();
        let q = apply_observations(p, front);
        assert(positive_observations(front)) by {
            assert forall|i: int| 0 <= i < front.len() implies (#[trigger] front[i]).1 > 0 by {
                assert(obs[i].1 > 0);
            }
        }
        lemma_apply_observations_weight(p, front, e);
        lemma_apply_observations_weight(p, front, obs.last().0);
        lemma_modify_pairs_content(q, obs.last().0, obs.last().1);
        if obs.last().0 == e {
            assert(pairs_weight(q, e) >= 0) by {
                if pairs_has(q, e) {
                    let i = pairs_index(q, e);
                    assert(0 <= i < q.len() && q[i].0 == e);
                    assert(q[i].1 > 0);
                }
            }
            assert(delta_sum(front, e) == delta_sum(obs, e) - obs.last().1);
        }
    }
}

proof fn lemma_delta_sum_drop_first<T>(obs: Seq<(T, int)>, e: T)
    requires
        obs.len() > 0,
    ensures
        delta_sum(obs, e) == (if obs[0].0 == e {
            obs[0].1
        } else {
            0
        }) + delta_sum(obs.subrange(1, obs.len() as int), e),
    decreases obs.len(),
{
    if obs.len() == 1 {
        assert(obs.subrange(1, 1) =~= Seq::<(T, int)>::empty());
        assert(obs.drop_last() =~= Seq::<(T, int)>::empty());
    } else {
        let rest = obs.subrange(1, obs.len() as int);
        lemma_delta_sum_drop_first(obs.drop_last(), e);
        assert(obs.drop_last().subrange(1, obs.len() - 1) =~= rest.drop_last());
        assert(obs.drop_last()[0] == obs[0]);
        assert(rest.last() == obs.last());
    }
}

proof fn lemma_delta_sum_reverse<T>(obs: Seq<(T, int)>, e: T)
    ensures
        delta_sum(obs.reverse(), e) == delta_sum(obs, e),
    decreases obs.len(),
{
    if obs.len() > 0 {
        let rev = obs.reverse();
        assert(rev.len() == obs.len());
        assert(rev.drop_last() =~= obs.subrange(1, obs.len() as int).reverse());
        assert(rev.last() == obs[0]);
        lemma_delta_sum_reverse(obs.subrange(1, obs.len() as int), e);
        lemma_delta_sum_drop_first(obs, e);
    }
}

/// Feeding the same observations in forward or in reverse order leaves
/// every element with the same weight: with positive deltas the final
/// distribution does not depend on the order of the training calls.
pub proof fn lemma_reverse_training_content<T>(p: Seq<(T, int)>, obs: Seq<(T, int)>)
    requires
        pairs_distinct(p),
        pairs_positive(p),
        positive_observations(obs),
    ensures
        forall|e: T|
            #[trigger] pairs_weight(apply_observations(p, obs.reverse()), e) == pairs_weight(
                apply_observations(p, obs),
                e,
            ),
{
    assert(positive_observations(obs.reverse())) by {
        assert forall|i: int|
            0 <= i < obs.reverse().len() implies (#[trigger] obs.reverse()[i]).1 > 0 by {
            assert(obs[obs.len() - 1 - i].1 > 0);
        }
    }
    assert forall|e: T|
        #[trigger] pairs_weight(apply_observations(p, obs.reverse()), e) == pairs_weight(
            apply_observations(p, obs),
            e,
        ) by {
        lemma_apply_observations_weight(p, obs, e);
        lemma_apply_observations_weight(p, obs.reverse(), e);
        lemma_delta_sum_reverse(obs, e);
    }
}

/// Euclid's greatest common divisor; `gcd_spec(a, 0) == a`.
pub open spec fn gcd_spec(a: nat, b: nat) -> nat
    decreases b,
{
    if b == 0 {
        a
    } else {
        gcd_spec(b, a % b)
    }
}

pub proof fn lemma_sum_weights_nonneg<T>(s: Seq<WeightedSide<T>>)
    ensures
        sum_weights(s) >= 0,
    decreases s.len(),
{
    if s.len() > 0 {
        lemma_sum_weights_nonneg(s.drop_last());
    }
}

proof fn lemma_gcd_pos(a: nat, b: nat)
    requires
        a > 0 || b > 0,
    ensures
        gcd_spec(a, b) > 0,
    decreases b,
{
    if b > 0 {
        lemma_gcd_pos(b, a % b);
    }
}

proof fn lemma_gcd_le(a: nat, b: nat)
    requires
        b > 0,
    ensures
        gcd_spec(a, b) <= b,
    decreases b,
{
    if a % b > 0 {
        lemma_gcd_le(b, a % b);
    } else {
        assert(gcd_spec(a, b) == gcd_spec(b, 0));
    }
}

/// The reduced probability of one face: a fraction of the total weight, with
/// numerator and denominator divided by their greatest common divisor.
#[derive(Clone, Copy, Debug, PartialEq, Eq, Structural)]
pub struct Probability {
    pub numerator: u64,
    pub denominator: u64,
}

/// Relies on rand::random_range over `0..n`: a uniformly distributed sample
/// from that range, which panics only when the range is empty.
#[verifier::external_body]
fn random_below(n: u64) -> (r: u64)
    requires
        n > 0,
    ensures
        r < n,
{
    rand::random_range(0..n)
}

impl<T: Element> WeightedDie<T> {
    /// The faces of the die, in insertion order.
    pub closed spec fn elems(self) -> Seq<T> {
        self.items@
    }

    /// The running (cumulative) weights, parallel to `elems()`.
    pub closed spec fn cum(self) -> Seq<u64> {
        self.running_weight@
    }

    /// The number of faces.
    pub open spec fn n_sides(self) -> nat {
        self.elems().len()
    }

    /// The running weight just before index `i`.
    pub open spec fn cum_before(self, i: int) -> int {
        if i == 0 {
            0
        } else {
            self.cum()[i - 1] as int
        }
    }

    /// The weight of the face at index `i`.
    pub open spec fn weight_at(self, i: int) -> int {
        self.cum()[i] - self.cum_before(i)
    }

    /// The total weight of the die.
    pub open spec fn total(self) -> int {
        if self.n_sides() == 0 {
            0
        } else {
            self.cum().last() as int
        }
    }

    /// Structural invariant: the two sequences run in parallel, the running
    /// weights strictly increase (so every weight is positive), and no
    /// element appears twice.
    pub open spec fn wf(self) -> bool {
        &&& self.cum().len() == self.elems().len()
        &&& (forall|i: int|
            0 <= i < self.n_sides() ==> self.cum_before(i) < (#[trigger] self.cum()[i]) as int)
        &&& (forall|i: int, j: int|
            0 <= i < j < self.n_sides() ==> self.elems()[i] != self.elems()[j])
    }

    /// Whether some face holds `e`.
    pub open spec fn has_elem(self, e: T) -> bool {
        exists|i: int| 0 <= i < self.n_sides() && self.elems()[i] == e
    }

    /// The index of the face holding `e` (meaningful when `has_elem(e)`;
    /// unique under `wf`).
    pub open spec fn index_of(self, e: T) -> int {
        choose|i: int| 0 <= i < self.n_sides() && self.elems()[i] == e
    }

    /// The weight of `e`, or 0 when no face holds it.
    pub open spec fn weight_of(self, e: T) -> int {
        if self.has_elem(e) {
            self.weight_at(self.index_of(e))
        } else {
            0
        }
    }

    /// The (element, weight) pairs of the die, in insertion order.
    pub open spec fn pairs(self) -> Seq<(T, int)> {
        Seq::new(self.n_sides(), |i: int| (self.elems()[i], self.weight_at(i)))
    }

    /// Running weights never decrease from `i` to `j`.
    pub proof fn lemma_cum_mono(self, i: int, j: int)
        requires
            self.wf(),
            0 <= i <= j < self.n_sides(),
        ensures
            self.cum()[i] <= self.cum()[j],
        decreases j - i,
    {
        if i < j {
            self.lemma_cum_mono(i, j - 1);
        }
    }

    /// Every running weight is at most the total.
    pub proof fn lemma_cum_le_total(self, i: int)
        requires
            self.wf(),
            0 <= i < self.n_sides(),
        ensures
            self.cum_before(i) < self.cum()[i] <= self.total(),
            self.total() > 0,
    {
        self.lemma_cum_mono(i, self.n_sides() as int - 1);
    }

    /// Creates a new weighted die from an explicit list of sides.
    ///
    /// The caller must not repeat an element; sides of weight 0 contribute
    /// nothing and are skipped. For incremental construction use `modify`.
    #[verifier::rlimit(50)]
    pub fn new(sides: Vec<WeightedSide<T>>) -> (r: Self)
        requires
            forall|i: int, j: int|
                0 <= i < j < sides@.len() ==> sides@[i].element != sides@[j].element,
            sum_weights(sides@) <= u64::MAX,
        ensures
            r.wf(),
            r.pairs() == side_pairs(sides@),
            r.total() == sum_weights(sides@),
    {
        let mut items: Vec<T> = Vec::new();
        let mut running_weight: Vec<u64> = Vec::new();
        let mut total: u64 = 0;
        let mut i: usize = 0;
        proof {
            reveal(Seq::filter);
            assert(sides@.subrange(0, 0) =~= Seq::<WeightedSide<T>>::empty());
        }
        while i < sides.len()
            invariant
                i <= sides@.len(),
                forall|a: int, b: int|
                    0 <= a < b < sides@.len() ==> sides@[a].element != sides@[b].element,
                sum_weights(sides@) <= u64::MAX,
                items@.len() == running_weight@.len(),
                items@.len() == positive_sides(sides@.subrange(0, i as int)).len(),
                forall|a: int|
                    0 <= a < items@.len() ==> #[trigger] items@[a] == positive_sides(
                        sides@.subrange(0, i as int),
                    )[a].element,
                forall|a: int|
                    0 <= a < running_weight@.len()
                        ==> (#[trigger] running_weight@[a]) as int - (if a == 0 {
                        0
                    } else {
                        running_weight@[a - 1] as int
                    }) == positive_sides(sides@.subrange(0, i as int))[a].weight,
                forall|a: int|
                    0 <= a < running_weight@.len() ==> (if a == 0 {
                        0
                    } else {
                        running_weight@[a - 1] as int
                    }) < (#[trigger] running_weight@[a]) as int,
                running_weight@.len() > 0 ==> running_weight@.last() == total,
                running_weight@.len() == 0 ==> total == 0,
                total == sum_weights(sides@.subrange(0, i as int)),
                forall|a: int|
                    0 <= a < items@.len() ==> exists|oi: int|
                        0 <= oi < i && sides@[oi].element == #[trigger] items@[a],
                forall|a: int, b: int| 0 <= a < b < items@.len() ==> items@[a] != items@[b],
            decreases sides@.len() - i,
        {
            let side = sides[i];
            proof {
                assert(sides@.subrange(0, i + 1).drop_last() =~= sides@.subrange(0, i as int));
                assert(sides@.subrange(0, i + 1).last() == sides@[i as int]);
                assert(sides@.subrange(0, i + 1) =~= sides@.subrange(0, i as int).push(
                    sides@[i as int],
                ));
                lemma_sum_weights_nonneg(sides@.subrange(0, i as int));
                lemma_sum_weights_prefix(sides@, i as int + 1);
                lemma_positive_sides_push(sides@.subrange(0, i as int), sides@[i as int]);
            }
            if side.weight > 0 {
                total = total + side.weight;
                items.push(side.element);
                running_weight.push(total);
            }
            i = i + 1;
        }
        proof {
            assert(sides@.subrange(0, sides@.len() as int) =~= sides@);
        }
        let r = WeightedDie { items, running_weight };
        proof {
            assert(r.pairs() =~= side_pairs(sides@));
        }
        r
    }

    /// The index of the first (and, under `wf`, only) face holding `element`.
    fn find_first(&self, element: T) -> (r: Option<usize>)
        ensures
            match r {
                Some(i) => i < self.n_sides() && self.elems()[i as int] == element && forall|j: int|
                    0 <= j < i ==> self.elems()[j] != element,
                None => !self.has_elem(element),
            },
    {
        let mut i: usize = 0;
        while i < self.items.len()
            invariant
                i <= self.items@.len(),
                forall|j: int| 0 <= j < i ==> self.items@[j] != element,
            decreases self.items@.len() - i,
        {
            if self.items[i].eq_elem(&element) {
                return Some(i);
            }
            i = i + 1;
        }
        None
    }

    /// Euclid's algorithm for the greatest common divisor.
    fn gcd(a: u64, b: u64) -> (r: u64)
        ensures
            r == gcd_spec(a as nat, b as nat),
    {
        let mut x = a;
        let mut y = b;
        while y != 0
            invariant
                gcd_spec(x as nat, y as nat) == gcd_spec(a as nat, b as nat),
            decreases y,
        {
            let t = y;
            y = x % y;
            x = t;
        }
        x
    }

    /// The weight of the face at `idx`, read off the running weights.
    fn get_item_weight(&self, idx: usize) -> (r: u64)
        requires
            self.wf(),
            idx < self.n_sides(),
        ensures
            r == self.weight_at(idx as int),
    {
        if idx == 0 {
            self.running_weight[0]
        } else {
            self.running_weight[idx] - self.running_weight[idx - 1]
        }
    }

    /// Adds `delta` to every running weight from `idx` on, growing the face
    /// at `idx` by `delta`.
    #[verifier::rlimit(50)]
    #[verifier::spinoff_prover]
    fn add_weight_from(&mut self, idx: usize, delta: u64)
        requires
            old(self).wf(),
            idx < old(self).n_sides(),
            old(self).total() + delta <= u64::MAX,
        ensures
            final(self).wf(),
            final(self).elems() == old(self).elems(),
            final(self).cum().len() == old(self).cum().len(),
            forall|a: int| 0 <= a < idx ==> final(self).cum()[a] == old(self).cum()[a],
            forall|a: int|
                idx <= a < old(self).cum().len() ==> (#[trigger] final(self).cum()[a]) as int
                    == old(self).cum()[a] + delta,
    {
        let mut i: usize = idx;
        while i < self.running_weight.len()
            invariant
                old(self).wf(),
                idx < old(self).n_sides(),
                old(self).total() + delta <= u64::MAX,
                idx <= i <= self.running_weight@.len(),
                self.items@ == old(self).items@,
                self.running_weight@.len() == old(self).running_weight@.len(),
                forall|a: int|
                    0 <= a < idx ==> self.running_weight@[a] == old(self).running_weight@[a],
                forall|a: int|
                    idx <= a < i ==> (#[trigger] self.running_weight@[a]) as int == old(
                        self,
                    ).running_weight@[a] + delta,
                forall|a: int|
                    i <= a < self.running_weight@.len() ==> self.running_weight@[a] == old(
                        self,
                    ).running_weight@[a],
            decreases self.running_weight@.len() - i,
        {
            proof {
                old(self).lemma_cum_le_total(i as int);
            }
            let v = self.running_weight[i];
            self.running_weight.set(i, v + delta);
            i = i + 1;
        }
    }

    /// Takes `delta` off every running weight from `idx` on, shrinking the
    /// face at `idx` by `delta`. The result is well formed again only when
    /// `delta` is strictly below that face's weight; `remove_at` restores it
    /// in the remaining case.
    #[verifier::rlimit(50)]
    fn sub_weight_from(&mut self, idx: usize, delta: u64)
        requires
            old(self).wf(),
            idx < old(self).n_sides(),
            delta <= old(self).weight_at(idx as int),
        ensures
            final(self).elems() == old(self).elems(),
            final(self).cum().len() == old(self).cum().len(),
            forall|a: int| 0 <= a < idx ==> final(self).cum()[a] == old(self).cum()[a],
            forall|a: int|
                idx <= a < old(self).cum().len() ==> (#[trigger] final(self).cum()[a]) as int
                    == old(self).cum()[a] - delta,
            delta < old(self).weight_at(idx as int) ==> final(self).wf(),
    {
        let mut i: usize = idx;
        while i < self.running_weight.len()
            invariant
                old(self).wf(),
                idx < old(self).n_sides(),
                delta <= old(self).weight_at(idx as int),
                idx <= i <= self.running_weight@.len(),
                self.items@ == old(self).items@,
                self.running_weight@.len() == old(self).running_weight@.len(),
                forall|a: int|
                    0 <= a < idx ==> self.running_weight@[a] == old(self).running_weight@[a],
                forall|a: int|
                    idx <= a < i ==> (#[trigger] self.running_weight@[a]) as int == old(
                        self,
                    ).running_weight@[a] - delta,
                forall|a: int|
                    i <= a < self.running_weight@.len() ==> self.running_weight@[a] == old(
                        self,
                    ).running_weight@[a],
            decreases self.running_weight@.len() - i,
        {
            proof {
                old(self).lemma_cum_mono(idx as int, i as int);
            }
            let v = self.running_weight[i];
            self.running_weight.set(i, v - delta);
            i = i + 1;
        }
    }

    /// Deletes the face at `idx` outright, taking its weight out of the
    /// running weights behind it.
    #[verifier::rlimit(50)]
    fn remove_at(&mut self, idx: usize) -> (w: u64)
        requires
            old(self).wf(),
            idx < old(self).n_sides(),
        ensures
            final(self).wf(),
            w == old(self).weight_at(idx as int),
            final(self).elems() == old(self).elems().remove(idx as int),
            final(self).cum().len() == old(self).cum().len() - 1,
            forall|a: int| 0 <= a < idx ==> final(self).cum()[a] == old(self).cum()[a],
            forall|a: int|
                idx <= a < final(self).cum().len() ==> (#[trigger] final(self).cum()[a]) as int
                    == old(self).cum()[a + 1] - old(self).weight_at(idx as int),
            final(self).total() == old(self).total() - old(self).weight_at(idx as int),
    {
        let w = self.get_item_weight(idx);
        self.sub_weight_from(idx, w);
        let ghost mid = *self;
        self.items.remove(idx);
        self.running_weight.remove(idx);
        proof {
            mid.elems().remove_ensures(idx as int);
            mid.cum().remove_ensures(idx as int);
            assert forall|a: int|
                idx <= a < self.cum().len() implies (#[trigger] self.cum()[a]) as int == old(
                self,
            ).cum()[a + 1] - old(self).weight_at(idx as int) by {
                assert(self.cum()[a] == mid.cum()[a + 1]);
            }
            assert(self.wf()) by {
                assert forall|a: int|
                    0 <= a < self.n_sides() implies self.cum_before(a) < (
                #[trigger] self.cum()[a]) as int by {
                    if a >= idx {
                        old(self).lemma_cum_le_total(a + 1);
                    }
                }
            }
            assert(self.total() == old(self).total() - old(self).weight_at(idx as int)) by {
                if self.cum().len() > 0 {
                    old(self).lemma_cum_le_total(old(self).cum().len() as int - 1);
                    assert(self.cum().last() == self.cum()[self.cum().len() - 1]);
                }
            }
        }
        w
    }

    /// The index of the face a draw position `pos` lands on: the unique `i`
    /// with `cum_before(i) <= pos < cum()[i]`.
    pub open spec fn sel_index(self, pos: int) -> int {
        choose|i: int|
            0 <= i < self.n_sides() && self.cum_before(i) <= pos < (#[trigger] self.cum()[i]) as int
    }

    /// The face a draw position `pos` lands on.
    pub open spec fn select(self, pos: int) -> T {
        self.elems()[self.sel_index(pos)]
    }

    /// Every position below the total lands on exactly one face.
    pub proof fn lemma_sel_exists(self, pos: int)
        requires
            self.wf(),
            0 <= pos < self.total(),
        ensures
            0 <= self.sel_index(pos) < self.n_sides(),
            self.cum_before(self.sel_index(pos)) <= pos < (self.cum()[self.sel_index(pos)]) as int,
    {
        self.lemma_sel_exists_below(self.n_sides() as int - 1, pos);
    }

    proof fn lemma_sel_exists_below(self, j: int, pos: int)
        requires
            self.wf(),
            0 <= j < self.n_sides(),
            0 <= pos < self.cum()[j],
        ensures
            exists|i: int|
                0 <= i < self.n_sides() && self.cum_before(i) <= pos < (#[trigger] self.cum()[i])
                    as int,
        decreases j,
    {
        if self.cum_before(j) <= pos {
            assert(self.cum_before(j) <= pos < (self.cum()[j]) as int);
        } else {
            self.lemma_sel_exists_below(j - 1, pos);
        }
    }

    /// A position below one face's running weight and at or above the
    /// preceding one lands on that face and no other.
    pub proof fn lemma_sel_unique(self, pos: int, i: int)
        requires
            self.wf(),
            0 <= i < self.n_sides(),
            self.cum_before(i) <= pos < (self.cum()[i]) as int,
        ensures
            self.sel_index(pos) == i,
            self.select(pos) == self.elems()[i],
    {
        let k = self.sel_index(pos);
        assert(0 <= k < self.n_sides() && self.cum_before(k) <= pos < (self.cum()[k]) as int);
        if k < i {
            self.lemma_cum_mono(k, i - 1);
            assert(false);
        }
        if i < k {
            self.lemma_cum_mono(i, k - 1);
            assert(false);
        }
    }

    /// Draws a face, weighted by the weights.
    ///
    /// With an explicit draw value the result is a pure function of that
    /// value: the value is wrapped around modulo the total weight and the
    /// faces partition `[0, total)` in order, each covering a span as wide as
    /// its weight. With no explicit value a uniformly random position below
    /// the total weight is drawn instead. An empty die (total weight 0)
    /// yields nothing.
    pub fn roll(&self, roll: Option<u64>) -> (r: Option<T>)
        requires
            self.wf(),
        ensures
            match roll {
                Some(v) => r == (if self.total() == 0 {
                    None::<T>
                } else {
                    Some(self.select((v as int) % self.total()))
                }),
                None => {
                    &&& (self.total() == 0 ==> r is None)
                    &&& (self.total() > 0 ==> exists|p: int|
                        0 <= p < self.total() && r == Some(self.select(p)))
                },
            },
    {
        let total_weight = self.total_weight();
        if self.items.len() == 0 || total_weight == 0 {
            return None;
        }
        let roll_result: u64 = match roll {
            Some(v) => v % total_weight,
            None => random_below(total_weight),
        };
        proof {
            self.lemma_sel_exists(roll_result as int);
        }
        let ghost target = self.sel_index(roll_result as int);
        let mut start: usize = 0;
        let mut end: usize = self.items.len() - 1;
        while start <= end
            invariant
                self.wf(),
                end < self.n_sides(),
                roll_result < self.total(),
                roll matches Some(v) ==> roll_result as int == (v as int) % self.total(),
                start <= target <= end,
                self.cum_before(target) <= roll_result < (self.cum()[target]) as int,
            decreases end - start,
        {
            let mid = start + (end - start) / 2;
            let matched = self.running_weight[mid];
            let mut one_less: u64 = 0;
            if mid > 0 {
                one_less = self.running_weight[mid - 1];
            }
            if matched > roll_result {
                if one_less <= roll_result {
                    proof {
                        self.lemma_sel_unique(roll_result as int, mid as int);
                    }
                    return Some(self.items[mid]);
                } else {
                    proof {
                        if target >= mid {
                            self.lemma_cum_mono(mid as int - 1, target - 1);
                            assert(false);
                        }
                    }
                    end = mid - 1;
                }
            } else {
                proof {
                    if target <= mid {
                        self.lemma_cum_mono(target, mid as int);
                        assert(false);
                    }
                }
                start = mid + 1;
            }
        }
        proof {
            assert(false);
        }
        None
    }

    /// The probability of drawing `element`, as a fraction reduced by the
    /// greatest common divisor of the element's weight and the total weight.
    /// An element the die does not hold has probability 0 (written 0/1).
    pub fn get_probability(&self, element: T) -> (r: Probability)
        requires
            self.wf(),
        ensures
            r.denominator > 0,
            !self.has_elem(element) ==> r == (Probability { numerator: 0, denominator: 1 }),
            self.has_elem(element) ==> {
                let g = gcd_spec(self.weight_of(element) as nat, self.total() as nat);
                &&& r.numerator == self.weight_of(element) as nat / g
                &&& r.denominator == self.total() as nat / g
            },
    {
        match self.find_first(element) {
            Some(idx) => {
                proof {
                    self.lemma_cum_le_total(idx as int);
                    self.lemma_weight_of_at(idx as int);
                }
                let w = self.get_item_weight(idx);
                let t = self.total_weight();
                let g = Self::gcd(w, t);
                proof {
                    lemma_gcd_pos(w as nat, t as nat);
                    lemma_gcd_le(w as nat, t as nat);
                    vstd::arithmetic::div_mod::lemma_div_non_zero(t as int, gcd_spec(
                        w as nat,
                        t as nat,
                    ) as int);
                }
                Probability { numerator: w / g, denominator: t / g }
            },
            None => Probability { numerator: 0, denominator: 1 },
        }
    }

    /// Deletes the face holding `element` outright, handing back the element
    /// with the weight it had, or nothing when the die does not hold it.
    pub fn remove(&mut self, element: T) -> (r: Option<WeightedSide<T>>)
        requires
            old(self).wf(),
        ensures
            final(self).wf(),
            match r {
                Some(side) => {
                    &&& old(self).has_elem(element)
                    &&& side.element == element
                    &&& side.weight == old(self).weight_of(element)
                    &&& final(self).pairs() == old(self).pairs().remove(
                        old(self).index_of(element),
                    )
                    &&& !final(self).has_elem(element)
                    &&& final(self).total() == old(self).total() - old(self).weight_of(element)
                },
                None => {
                    &&& !old(self).has_elem(element)
                    &&& *final(self) == *old(self)
                },
            },
            forall|e: T| e != element ==> #[trigger] final(self).has_elem(e) == old(self).has_elem(e),
            forall|e: T|
                e != element ==> #[trigger] final(self).weight_of(e) == old(self).weight_of(e),
    {
        match self.find_first(element) {
            Some(idx) => {
                proof {
                    old(self).lemma_weight_of_at(idx as int);
                }
                let w = self.remove_at(idx);
                proof {
                    Self::lemma_after_remove(*old(self), *self, idx as int);
                }
                Some(WeightedSide { element: element, weight: w })
            },
            None => None,
        }
    }

    /// The number of faces of the die.
    pub fn len(&self) -> (r: usize)
        ensures
            r == self.n_sides(),
    {
        self.items.len()
    }

    /// The pairs of a well-formed die are distinct and positively weighted.
    pub proof fn lemma_pairs_wf(self)
        requires
            self.wf(),
        ensures
            pairs_distinct(self.pairs()),
            pairs_positive(self.pairs()),
            self.pairs().len() == self.n_sides(),
    {
    }

    /// Two well-formed dice with the same pairs give every element the same
    /// weight.
    pub proof fn lemma_pairs_determine_content(d1: Self, d2: Self)
        requires
            d1.wf(),
            d2.wf(),
            d1.pairs() == d2.pairs(),
        ensures
            forall|e: T| #[trigger] d1.weight_of(e) == d2.weight_of(e),
    {
        assert(d1.pairs().len() == d1.n_sides());
        assert(d2.pairs().len() == d2.n_sides());
        assert(d1.elems() =~= d2.elems()) by {
            assert forall|i: int| 0 <= i < d1.n_sides() implies d1.elems()[i] == d2.elems()[i] by {
                assert(d1.pairs()[i] == (d1.elems()[i], d1.weight_at(i)));
                assert(d2.pairs()[i] == (d2.elems()[i], d2.weight_at(i)));
                assert(d1.pairs()[i] == d2.pairs()[i]);
            }
        }
        assert forall|e: T| #[trigger] d1.weight_of(e) == d2.weight_of(e) by {
            if d1.has_elem(e) {
                let i = d1.index_of(e);
                assert(0 <= i < d1.n_sides() && d1.elems()[i] == e);
                d1.lemma_weight_of_at(i);
                d2.lemma_weight_of_at(i);
                assert(d1.pairs()[i] == d2.pairs()[i]);
            } else if d2.has_elem(e) {
                let i = d2.index_of(e);
                assert(0 <= i < d2.n_sides() && d2.elems()[i] == e);
                assert(d1.has_elem(e));
            }
        }
    }

    /// A die holds an element exactly when that element's weight is
    /// positive.
    pub proof fn lemma_has_iff_weight_pos(self, e: T)
        requires
            self.wf(),
        ensures
            self.has_elem(e) <==> self.weight_of(e) > 0,
    {
        if self.has_elem(e) {
            let i = self.index_of(e);
            assert(0 <= i < self.n_sides() && self.elems()[i] == e);
        }
    }

    /// The face at index `i`, with its weight.
    pub fn side_at(&self, i: usize) -> (r: WeightedSide<T>)
        requires
            self.wf(),
            i < self.n_sides(),
        ensures
            r.element == self.elems()[i as int],
            r.weight == self.weight_at(i as int),
    {
        WeightedSide { element: self.items[i], weight: self.get_item_weight(i) }
    }

    /// The weight of `element`, or 0 when the die does not hold it.
    pub fn weight(&self, element: T) -> (r: u64)
        requires
            self.wf(),
        ensures
            r == self.weight_of(element),
    {
        match self.find_first(element) {
            Some(i) => {
                proof {
                    self.lemma_weight_of_at(i as int);
                }
                self.get_item_weight(i)
            },
            None => 0,
        }
    }

    /// The faces of the die as an owned list of sides, in order. Feeding
    /// them back to `new` rebuilds an identical die.
    #[verifier::rlimit(50)]
    #[verifier::spinoff_prover]
    pub fn sides(&self) -> (r: Vec<WeightedSide<T>>)
        requires
            self.wf(),
        ensures
            r@.len() == self.n_sides(),
            forall|i: int|
                0 <= i < r@.len() ==> (#[trigger] r@[i]).element == self.elems()[i] && r@[i].weight
                    == self.weight_at(i),
            forall|i: int, j: int| 0 <= i < j < r@.len() ==> r@[i].element != r@[j].element,
            forall|i: int| 0 <= i < r@.len() ==> (#[trigger] r@[i]).weight > 0,
            side_pairs(r@) == self.pairs(),
            sum_weights(r@) == self.total(),
    {
        let mut out: Vec<WeightedSide<T>> = Vec::new();
        let mut i: usize = 0;
        proof {
            reveal(Seq::filter);
        }
        while i < self.items.len()
            invariant
                self.wf(),
                i <= self.n_sides(),
                out@.len() == i,
                forall|a: int|
                    0 <= a < i ==> (#[trigger] out@[a]).element == self.elems()[a] && out@[a].weight
                        == self.weight_at(a),
                positive_sides(out@) == out@,
                sum_weights(out@) == self.cum_before(i as int),
            decreases self.n_sides() - i,
        {
            let side = self.side_at(i);
            proof {
                lemma_positive_sides_push(out@, side);
                assert(out@.push(side).drop_last() =~= out@);
            }
            out.push(side);
            i = i + 1;
        }
        proof {
            if self.n_sides() > 0 {
                assert(self.cum_before(self.n_sides() as int) == self.total());
            }
            assert(side_pairs(out@) =~= self.pairs());
        }
        out
    }

    /// Whether two dice describe the same distribution: every element has
    /// the same weight in both, whatever order the faces sit in.
    #[verifier::rlimit(50)]
    #[verifier::spinoff_prover]
    pub fn content_eq(&self, other: &Self) -> (r: bool)
        requires
            self.wf(),
            other.wf(),
        ensures
            r <==> (forall|e: T| #[trigger] self.weight_of(e) == other.weight_of(e)),
    {
        let mut i: usize = 0;
        while i < self.items.len()
            invariant
                self.wf(),
                other.wf(),
                i <= self.n_sides(),
                forall|j: int|
                    0 <= j < i ==> self.weight_of(#[trigger] self.elems()[j]) == other.weight_of(
                        self.elems()[j],
                    ),
            decreases self.n_sides() - i,
        {
            let w = self.get_item_weight(i);
            let ow = other.weight(self.items[i]);
            proof {
                self.lemma_weight_of_at(i as int);
            }
            if w != ow {
                return false;
            }
            i = i + 1;
        }
        let mut j: usize = 0;
        while j < other.items.len()
            invariant
                self.wf(),
                other.wf(),
                j <= other.n_sides(),
                forall|a: int|
                    0 <= a < self.n_sides() ==> self.weight_of(#[trigger] self.elems()[a])
                        == other.weight_of(self.elems()[a]),
                forall|b: int|
                    0 <= b < j ==> self.weight_of(#[trigger] other.elems()[b]) == other.weight_of(
                        other.elems()[b],
                    ),
            decreases other.n_sides() - j,
        {
            let w2 = other.get_item_weight(j);
            let mw = self.weight(other.items[j]);
            proof {
                other.lemma_weight_of_at(j as int);
            }
            if mw != w2 {
                return false;
            }
            j = j + 1;
        }
        proof {
            assert forall|e: T| #[trigger] self.weight_of(e) == other.weight_of(e) by {
                if self.has_elem(e) {
                    let a = self.index_of(e);
                    assert(0 <= a < self.n_sides() && self.elems()[a] == e);
                } else if other.has_elem(e) {
                    let b = other.index_of(e);
                    assert(0 <= b < other.n_sides() && other.elems()[b] == e);
                }
            }
        }
        true
    }

    /// The total weight of the die.
    pub fn total_weight(&self) -> (r: u64)
        requires
            self.wf(),
        ensures
            r == self.total(),
    {
        if self.running_weight.len() == 0 {
            0
        } else {
            self.running_weight[self.running_weight.len() - 1]
        }
    }

    /// The face at index `i` identifies itself: `index_of`, `has_elem` and
    /// `weight_of` all agree with position `i`.
    pub proof fn lemma_weight_of_at(self, i: int)
        requires
            self.wf(),
            0 <= i < self.n_sides(),
        ensures
            self.has_elem(self.elems()[i]),
            self.index_of(self.elems()[i]) == i,
            self.weight_of(self.elems()[i]) == self.weight_at(i),
    {
        let e = self.elems()[i];
        assert(self.has_elem(e));
        let j = self.index_of(e);
        if j != i {
            if j < i {
                assert(self.elems()[j] != self.elems()[i]);
            } else {
                assert(self.elems()[i] != self.elems()[j]);
            }
        }
    }

    /// Relates the pairs and the per-element weights of the die after a face
    /// was deleted to those before.
    #[verifier::rlimit(100)]
    #[verifier::spinoff_prover]
    proof fn lemma_after_remove(a: Self, b: Self, idx: int)
        requires
            a.wf(),
            b.wf(),
            0 <= idx < a.n_sides(),
            b.elems() == a.elems().remove(idx),
            b.cum().len() == a.cum().len() - 1,
            forall|x: int| 0 <= x < idx ==> b.cum()[x] == a.cum()[x],
            forall|x: int|
                idx <= x < b.cum().len() ==> (#[trigger] b.cum()[x]) as int == a.cum()[x + 1]
                    - a.weight_at(idx),
        ensures
            b.pairs() == a.pairs().remove(idx),
            !b.has_elem(a.elems()[idx]),
            b.weight_of(a.elems()[idx]) == 0,
            forall|e: T| e != a.elems()[idx] ==> #[trigger] b.has_elem(e) == a.has_elem(e),
            forall|e: T| e != a.elems()[idx] ==> #[trigger] b.weight_of(e) == a.weight_of(e),
    {
        let el = a.elems()[idx];
        a.elems().remove_ensures(idx);
        assert forall|x: int| idx <= x < b.n_sides() implies b.weight_at(x) == a.weight_at(
            x + 1,
        ) by {}
        assert forall|x: int| 0 <= x < idx implies b.weight_at(x) == a.weight_at(x) by {}
        assert(b.pairs() =~= a.pairs().remove(idx)) by {
            a.pairs().remove_ensures(idx);
        }
        assert(!b.has_elem(el)) by {
            assert forall|x: int| 0 <= x < b.n_sides() implies b.elems()[x] != el by {
                if x < idx {
                    assert(a.elems()[x] != a.elems()[idx]);
                } else {
                    assert(a.elems()[idx] != a.elems()[x + 1]);
                }
            }
        }
        assert forall|e: T|
            e != el implies #[trigger] b.has_elem(e) == a.has_elem(e) && b.weight_of(e)
                == a.weight_of(e) by {
            if a.has_elem(e) {
                let j = a.index_of(e);
                assert(0 <= j < a.n_sides() && a.elems()[j] == e);
                assert(j != idx);
                let jn = if j < idx {
                    j
                } else {
                    j - 1
                };
                assert(b.elems()[jn] == e);
                a.lemma_weight_of_at(j);
                b.lemma_weight_of_at(jn);
            } else {
                assert forall|x: int| 0 <= x < b.n_sides() implies b.elems()[x] != e by {
                    if x < idx {
                        assert(a.elems()[x] != e);
                    } else {
                        assert(a.elems()[x + 1] != e);
                    }
                }
            }
        }
    }

    /// Relates the pairs and the per-element weights of the die after one
    /// face's weight changed by `delta`, all faces staying in place.
    proof fn lemma_after_update(a: Self, b: Self, idx: int, delta: int)
        requires
            a.wf(),
            b.wf(),
            0 <= idx < a.n_sides(),
            b.elems() == a.elems(),
            b.cum().len() == a.cum().len(),
            forall|x: int| 0 <= x < idx ==> b.cum()[x] == a.cum()[x],
            forall|x: int|
                idx <= x < b.cum().len() ==> (#[trigger] b.cum()[x]) as int == a.cum()[x] + delta,
        ensures
            b.pairs() == a.pairs().update(idx, (a.elems()[idx], a.weight_at(idx) + delta)),
            b.weight_of(a.elems()[idx]) == a.weight_at(idx) + delta,
            forall|e: T| e != a.elems()[idx] ==> #[trigger] b.has_elem(e) == a.has_elem(e),
            forall|e: T| e != a.elems()[idx] ==> #[trigger] b.weight_of(e) == a.weight_of(e),
    {
        let el = a.elems()[idx];
        assert forall|x: int| 0 <= x < b.n_sides() && x != idx implies b.weight_at(x)
            == a.weight_at(x) by {}
        assert(b.weight_at(idx) == a.weight_at(idx) + delta);
        assert(b.pairs() =~= a.pairs().update(idx, (el, a.weight_at(idx) + delta)));
        b.lemma_weight_of_at(idx);
        assert forall|e: T|
            e != el implies #[trigger] b.has_elem(e) == a.has_elem(e) && b.weight_of(e)
                == a.weight_of(e) by {
            if a.has_elem(e) {
                let j = a.index_of(e);
                assert(0 <= j < a.n_sides() && a.elems()[j] == e);
                assert(j != idx);
                a.lemma_weight_of_at(j);
                b.lemma_weight_of_at(j);
            }
        }
    }

    /// Changes the weight of the face at `idx` by `weight_delta`; a negative
    /// delta that meets or exceeds the face's weight deletes the face.
    #[verifier::rlimit(100)]
    #[verifier::spinoff_prover]
    fn modify_weight_by_idx(&mut self, idx: usize, weight_delta: i32)
        requires
            old(self).wf(),
            idx < old(self).n_sides(),
            weight_delta != i32::MIN,
            weight_delta > 0 ==> old(self).total() + weight_delta <= u64::MAX,
        ensures
            final(self).wf(),
            if weight_delta < 0 && old(self).weight_at(idx as int) + weight_delta <= 0 {
                &&& final(self).elems() == old(self).elems().remove(idx as int)
                &&& final(self).pairs() == old(self).pairs().remove(idx as int)
                &&& final(self).total() == old(self).total() - old(self).weight_at(idx as int)
                &&& !final(self).has_elem(old(self).elems()[idx as int])
                &&& final(self).weight_of(old(self).elems()[idx as int]) == 0
            } else {
                &&& final(self).elems() == old(self).elems()
                &&& final(self).pairs() == old(self).pairs().update(
                    idx as int,
                    (old(self).elems()[idx as int], old(self).weight_at(idx as int) + weight_delta),
                )
                &&& final(self).total() == old(self).total() + weight_delta
                &&& final(self).weight_of(old(self).elems()[idx as int]) == old(self).weight_at(
                    idx as int,
                ) + weight_delta
            },
            forall|e: T|
                e != old(self).elems()[idx as int] ==> #[trigger] final(self).has_elem(e) == old(
                    self,
                ).has_elem(e),
            forall|e: T|
                e != old(self).elems()[idx as int] ==> #[trigger] final(self).weight_of(e) == old(
                    self,
                ).weight_of(e),
    {
        if weight_delta > 0 {
            proof {
                old(self).lemma_cum_le_total(idx as int);
            }
            self.add_weight_from(idx, weight_delta as u64);
            proof {
                Self::lemma_after_update(*old(self), *self, idx as int, weight_delta as int);
            }
        } else {
            let abs_delta = (-weight_delta) as u64;
            let cur_weight = self.get_item_weight(idx);
            if abs_delta >= cur_weight && weight_delta < 0 {
                self.remove_at(idx);
                proof {
                    Self::lemma_after_remove(*old(self), *self, idx as int);
                }
            } else {
                self.sub_weight_from(idx, abs_delta);
                proof {
                    Self::lemma_after_update(*old(self), *self, idx as int, weight_delta as int);
                }
            }
        }
    }

    /// Changes the weight of `elem` by `weight_delta`, adding or deleting the
    /// face as needed.
    ///
    /// The weight of `elem` afterwards is its weight before plus the delta,
    /// clamped so it never goes negative: a face whose whole weight is taken
    /// is deleted. No other face changes. A fresh element with a positive
    /// delta is appended; with a non-positive delta nothing happens.
    #[verifier::rlimit(100)]
    #[verifier::spinoff_prover]
    pub fn modify(&mut self, elem: T, weight_delta: i32) -> (r: Result<(), ModelError>)
        requires
            old(self).wf(),
        ensures
            final(self).wf(),
            match r {
                Ok(()) => {
                    &&& weight_delta != i32::MIN
                    &&& weight_delta > 0 ==> old(self).total() + weight_delta <= u64::MAX
                    &&& final(self).pairs() == modify_pairs(
                        old(self).pairs(),
                        elem,
                        weight_delta as int,
                    )
                    &&& final(self).weight_of(elem) == clamped(
                        old(self).pairs(),
                        elem,
                        weight_delta as int,
                    )
                    &&& (forall|e: T|
                        e != elem ==> #[trigger] final(self).has_elem(e) == old(self).has_elem(e))
                    &&& (forall|e: T|
                        e != elem ==> #[trigger] final(self).weight_of(e) == old(self).weight_of(
                            e,
                        ))
                    &&& final(self).total() == old(self).total() - old(self).weight_of(elem)
                        + final(self).weight_of(elem)
                },
                Err(e) => {
                    &&& *final(self) == *old(self)
                    &&& (e == ModelError::WeightDeltaOverflow <==> weight_delta == i32::MIN)
                    &&& (e == ModelError::WeightOverflow <==> weight_delta != i32::MIN
                        && weight_delta > 0 && old(self).total() + weight_delta > u64::MAX)
                },
            },
            r is Err <==> (weight_delta == i32::MIN || (weight_delta > 0 && old(self).total()
                + weight_delta > u64::MAX)),
    {
        if weight_delta == i32::MIN {
            return Err(ModelError::WeightDeltaOverflow);
        }
        if weight_delta > 0 {
            let t = self.total_weight();
            if weight_delta as u64 > u64::MAX - t {
                return Err(ModelError::WeightOverflow);
            }
        }
        let found = self.find_first(elem);
        match found {
            Some(idx) => {
                proof {
                    old(self).lemma_weight_of_at(idx as int);
                    assert(pairs_has(old(self).pairs(), elem)) by {
                        assert(old(self).pairs()[idx as int].0 == elem);
                    }
                    assert(pairs_index(old(self).pairs(), elem) == idx as int) by {
                        let j = pairs_index(old(self).pairs(), elem);
                        assert(0 <= j < old(self).pairs().len() && old(self).pairs()[j].0 == elem);
                        if j != idx as int {
                            assert(old(self).elems()[j] == elem);
                            old(self).lemma_weight_of_at(j);
                        }
                    }
                }
                self.modify_weight_by_idx(idx, weight_delta);
                Ok(())
            },
            None => {
                if weight_delta > 0 {
                    let t = self.total_weight();
                    let ghost a = *self;
                    self.items.push(elem);
                    self.running_weight.push(t + weight_delta as u64);
                    proof {
                        if a.n_sides() > 0 {
                            a.lemma_cum_le_total(a.n_sides() as int - 1);
                        }
                        assert(self.wf()) by {
                            assert forall|x: int|
                                0 <= x < self.n_sides() implies self.cum_before(x) < (
                            #[trigger] self.cum()[x]) as int by {
                                if x < a.n_sides() as int {
                                    assert(self.cum()[x] == a.cum()[x]);
                                }
                            }
                        }
                        assert(self.pairs() =~= a.pairs().push((elem, weight_delta as int)));
                        self.lemma_weight_of_at(a.n_sides() as int);
                        assert forall|e: T|
                            e != elem implies #[trigger] self.has_elem(e) == a.has_elem(e)
                                && self.weight_of(e) == a.weight_of(e) by {
                            if a.has_elem(e) {
                                let j = a.index_of(e);
                                assert(0 <= j < a.n_sides() && a.elems()[j] == e);
                                a.lemma_weight_of_at(j);
                                self.lemma_weight_of_at(j);
                            } else {
                                assert forall|x: int|
                                    0 <= x < self.n_sides() implies self.elems()[x] != e by {
                                    if x < a.n_sides() as int {
                                        assert(a.elems()[x] != e);
                                    }
                                }
                            }
                        }
                    }
                }
                Ok(())
            },
        }
    }
}

pub proof fn lemma_sum_weights_prefix<T>(s: Seq<WeightedSide<T>>, i: int)
    requires
        0 <= i <= s.len(),
    ensures
        sum_weights(s.subrange(0, i)) <= sum_weights(s),
    decreases s.len() - i,
{
    if i == s.len() {
        assert(s.subrange(0, i) =~= s);
    } else {
        lemma_sum_weights_prefix(s, i + 1);
        assert(s.subrange(0, i + 1).drop_last() =~= s.subrange(0, i));
        assert(s.subrange(0, i + 1).last() == s[i]);
    }
}

} // verus!
