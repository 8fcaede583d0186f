//! Variable-order probabilistic sequence models for procedural generation:
//! a weighted discrete sampler with incremental weight updates and
//! logarithmic-time draws, and Markov chains built on it that map fixed
//! length — possibly partially unknown — context windows to one sampler
//! each.

pub mod chain;
pub mod die;

use vstd::prelude::*;
use vstd::arithmetic::div_mod::lemma_div_denominator;
use vstd::arithmetic::power2::lemma2_to64;
use vstd::arithmetic::power2::lemma_pow2_unfold;
use vstd::arithmetic::power2::pow2;

verus! {

broadcast use vstd::arithmetic::power2::lemma_pow2_pos;

/// The kinds of value a sampler or chain can hold: cheap to copy, with an
/// executable equality test that agrees with mathematical equality.
pub trait Element: Sized + Copy {
    /// Decides whether two elements are the same value.
    fn eq_elem(&self, other: &Self) -> (r: bool)
        ensures
            r <==> (*self == *other),
    ;
}

impl Element for u8 {
    fn eq_elem(&self, other: &Self) -> (r: bool)
        ensures
            r <==> (*self == *other),
    {
        *self == *other
    }
}

impl Element for u16 {
    fn eq_elem(&self, other: &Self) -> (r: bool)
        ensures
            r <==> (*self == *other),
    {
        *self == *other
    }
}

impl Element for u32 {
    fn eq_elem(&self, other: &Self) -> (r: bool)
        ensures
            r <==> (*self == *other),
    {
        *self == *other
    }
}

impl Element for u64 {
    fn eq_elem(&self, other: &Self) -> (r: bool)
        ensures
            r <==> (*self == *other),
    {
        *self == *other
    }
}

impl Element for usize {
    fn eq_elem(&self, other: &Self) -> (r: bool)
        ensures
            r <==> (*self == *other),
    {
        *self == *other
    }
}

impl Element for i32 {
    fn eq_elem(&self, other: &Self) -> (r: bool)
        ensures
            r <==> (*self == *other),
    {
        *self == *other
    }
}

impl Element for i64 {
    fn eq_elem(&self, other: &Self) -> (r: bool)
        ensures
            r <==> (*self == *other),
    {
        *self == *other
    }
}

impl Element for char {
    fn eq_elem(&self, other: &Self) -> (r: bool)
        ensures
            r <==> (*self == *other),
    {
        *self == *other
    }
}

/// Everything that can go wrong in a training or query call.
#[derive(Clone, Copy, Debug, PartialEq, Eq, Structural)]
pub enum ModelError {
    /// The window handed in holds fewer elements than the model's order.
    UndersizedWindow,
    /// The magnitude of the weight delta cannot be represented (`i32::MIN`).
    WeightDeltaOverflow,
    /// Applying the delta would push a sampler's total weight past `u64::MAX`.
    WeightOverflow,
    /// The optional-position set is too large to enumerate its variants.
    CapacityExceeded,
}

/// One context of the model: the key, some slots possibly unknown, and the
/// distribution of what follows that context.
struct ModelEntry<T: Element> {
    key: Vec<Option<T>>,
    die: die::WeightedDie<T>,
}

/// A variable-order Markov chain over any element type, with optional
/// context positions.
///
/// The model keeps one weighted die per context key, the key being the
/// `order` most recent elements of the training window. Positions named at
/// construction as optional are wildcarded during training: every observation
/// is recorded under the exact key and under every variant of it with some
/// optional positions replaced by `None`, so a later query with a partially
/// unknown context still finds a trained die.
pub struct MarkovChain<T: Element> {
    order: usize,
    probability_map: Vec<ModelEntry<T>>,
    optional_elements: Vec<usize>,
}

/// All the keys a training observation is recorded under: each optional
/// position independently kept or replaced by "unknown".
pub open spec fn key_variants<T>(key: Seq<Option<T>>, opts: Seq<usize>) -> Set<Seq<Option<T>>>
    decreases opts.len(),
{
    if opts.len() == 0 {
        Set::empty().insert(key)
    } else {
        key_variants(key.update(opts[0] as int, None), opts.subrange(1, opts.len() as int)).union(
            key_variants(key, opts.subrange(1, opts.len() as int)),
        )
    }
}

/// The variant a mask picks: bit `j` of `m` decides whether the slot at
/// `opts[j]` is kept (1) or replaced by "unknown" (0).
pub open spec fn variant_by_mask<T>(key: Seq<Option<T>>, opts: Seq<usize>, m: nat) -> Seq<
    Option<T>,
>
    decreases opts.len(),
{
    if opts.len() == 0 {
        key
    } else if m % 2 == 0 {
        variant_by_mask(
            key.update(opts[0] as int, None),
            opts.subrange(1, opts.len() as int),
            m / 2,
        )
    } else {
        variant_by_mask(key, opts.subrange(1, opts.len() as int), m / 2)
    }
}

/// Whether `p` occurs as a position in `opts`.
pub open spec fn pos_in(opts: Seq<usize>, p: int) -> bool {
    exists|i: int| 0 <= i < opts.len() && opts[i] == p
}

/// A variant keeps the window's length; slots at optional positions follow
/// the mask's bits and every other slot is untouched.
proof fn lemma_variant_char<T>(key: Seq<Option<T>>, opts: Seq<usize>, m: nat)
    requires
        forall|i: int| 0 <= i < opts.len() ==> (#[trigger] opts[i]) < key.len(),
        forall|i: int, j: int| 0 <= i < j < opts.len() ==> opts[i] != opts[j],
    ensures
        variant_by_mask(key, opts, m).len() == key.len(),
        forall|p: int|
            0 <= p < key.len() && !pos_in(opts, p) ==> #[trigger] variant_by_mask(key, opts, m)[p]
                == key[p],
        forall|i: int|
            0 <= i < opts.len() ==> #[trigger] variant_by_mask(key, opts, m)[opts[i] as int] == (
            if (m / pow2(i as nat)) % 2 == 0 {
                None
            } else {
                key[opts[i] as int]
            }),
    decreases opts.len(),
{
    lemma2_to64();
    if opts.len() > 0 {
        let rest = opts.subrange(1, opts.len() as int);
        let v = variant_by_mask(key, opts, m);
        if m % 2 == 0 {
            let key2 = key.update(opts[0] as int, None);
            lemma_variant_char(key2, rest, m / 2);
            assert(v == variant_by_mask(key2, rest, m / 2));
            assert forall|i: int|
                0 <= i < opts.len() implies #[trigger] v[opts[i] as int] == (if (m / pow2(
                i as nat,
            )) % 2 == 0 {
                None
            } else {
                key[opts[i] as int]
            }) by {
                if i == 0 {
                    assert(!pos_in(rest, opts[0] as int)) by {
                        if pos_in(rest, opts[0] as int) {
                            let w = choose|w: int|
                                0 <= w < rest.len() && rest[w] == opts[0] as int;
                            assert(opts[w + 1] == opts[0]);
                        }
                    }
                    assert(v[opts[0] as int] == key2[opts[0] as int]);
                    assert((m / pow2(0)) % 2 == m % 2);
                } else {
                    assert(rest[i - 1] == opts[i]);
                    lemma_pow2_unfold(i as nat);
                    lemma_div_denominator(m as int, 2, pow2((i - 1) as nat) as int);
                    assert(v[opts[i] as int] == (if ((m / 2) / pow2((i - 1) as nat)) % 2 == 0 {
                        None
                    } else {
                        key2[opts[i] as int]
                    }));
                    assert(pow2(i as nat) == 2 * pow2((i - 1) as nat));
                    assert(m / pow2(i as nat) == (m / 2) / pow2((i - 1) as nat));
                    assert(key2[opts[i] as int] == key[opts[i] as int]);
                }
            }
            assert forall|p: int|
                0 <= p < key.len() && !pos_in(opts, p) implies #[trigger] v[p] == key[p] by {
                assert(!pos_in(rest, p)) by {
                    if pos_in(rest, p) {
                        let w = choose|w: int| 0 <= w < rest.len() && rest[w] == p;
                        assert(opts[w + 1] == p);
                    }
                }
                assert(p != opts[0] as int) by {
                    if p == opts[0] as int {
                        assert(opts[0] == p);
                    }
                }
            }
        } else {
            lemma_variant_char(key, rest, m / 2);
            assert(v == variant_by_mask(key, rest, m / 2));
            assert forall|i: int|
                0 <= i < opts.len() implies #[trigger] v[opts[i] as int] == (if (m / pow2(
                i as nat,
            )) % 2 == 0 {
                None
            } else {
                key[opts[i] as int]
            }) by {
                if i == 0 {
                    assert(!pos_in(rest, opts[0] as int)) by {
                        if pos_in(rest, opts[0] as int) {
                            let w = choose|w: int|
                                0 <= w < rest.len() && rest[w] == opts[0] as int;
                            assert(opts[w + 1] == opts[0]);
                        }
                    }
                    assert(v[opts[0] as int] == key[opts[0] as int]);
                    assert((m / pow2(0)) % 2 == m % 2);
                } else {
                    assert(rest[i - 1] == opts[i]);
                    lemma_pow2_unfold(i as nat);
                    lemma_div_denominator(m as int, 2, pow2((i - 1) as nat) as int);
                    assert(v[opts[i] as int] == (if ((m / 2) / pow2((i - 1) as nat)) % 2 == 0 {
                        None
                    } else {
                        key[opts[i] as int]
                    }));
                    assert(pow2(i as nat) == 2 * pow2((i - 1) as nat));
                    assert(m / pow2(i as nat) == (m / 2) / pow2((i - 1) as nat));
                }
            }
            assert forall|p: int|
                0 <= p < key.len() && !pos_in(opts, p) implies #[trigger] v[p] == key[p] by {
                assert(!pos_in(rest, p)) by {
                    if pos_in(rest, p) {
                        let w = choose|w: int| 0 <= w < rest.len() && rest[w] == p;
                        assert(opts[w + 1] == p);
                    }
                }
            }
        }
    }
}

/// Two different masks below `pow2(k)` differ in some bit below `k`.
proof fn lemma_bits_differ(m1: nat, m2: nat, k: nat)
    requires
        m1 < pow2(k),
        m2 < pow2(k),
        m1 != m2,
    ensures
        exists|j: nat| j < k && ((m1 / pow2(j)) % 2) != ((m2 / pow2(j)) % 2),
    decreases k,
{
    lemma2_to64();
    if k == 0 {
        assert(false);
    } else if m1 % 2 != m2 % 2 {
        assert(0 < k && ((m1 / pow2(0)) % 2) != ((m2 / pow2(0)) % 2));
    } else {
        lemma_pow2_unfold(k);
        assert(m1 / 2 != m2 / 2);
        lemma_bits_differ(m1 / 2, m2 / 2, (k - 1) as nat);
        let j = choose|j: nat| j < k - 1 && (((m1 / 2) / pow2(j)) % 2) != (((m2 / 2) / pow2(j))
            % 2);
        lemma_pow2_unfold((j + 1) as nat);
        lemma_div_denominator(m1 as int, 2, pow2(j) as int);
        lemma_div_denominator(m2 as int, 2, pow2(j) as int);
        assert(((j + 1) as nat) < k && ((m1 / pow2((j + 1) as nat)) % 2) != ((m2 / pow2(
            (j + 1) as nat,
        )) % 2));
    }
}

/// Different masks pick different variants, as long as the key is fully
/// known at the optional positions.
proof fn lemma_variants_distinct<T>(key: Seq<Option<T>>, opts: Seq<usize>, m1: nat, m2: nat)
    requires
        forall|i: int| 0 <= i < opts.len() ==> (#[trigger] opts[i]) < key.len(),
        forall|i: int, j: int| 0 <= i < j < opts.len() ==> opts[i] != opts[j],
        forall|i: int| 0 <= i < opts.len() ==> (#[trigger] key[opts[i] as int]) is Some,
        m1 < pow2(opts.len()),
        m2 < pow2(opts.len()),
        m1 != m2,
    ensures
        variant_by_mask(key, opts, m1) != variant_by_mask(key, opts, m2),
{
    lemma_bits_differ(m1, m2, opts.len());
    let j = choose|j: nat| j < opts.len() && ((m1 / pow2(j)) % 2) != ((m2 / pow2(j)) % 2);
    lemma_variant_char(key, opts, m1);
    lemma_variant_char(key, opts, m2);
    assert(variant_by_mask(key, opts, m1)[opts[j as int] as int] != variant_by_mask(
        key,
        opts,
        m2,
    )[opts[j as int] as int]);
}

/// The variants of a key are exactly the variants its masks pick.
proof fn lemma_variants_masks<T>(key: Seq<Option<T>>, opts: Seq<usize>)
    ensures
        forall|v: Seq<Option<T>>|
            #[trigger] key_variants(key, opts).contains(v) <==> exists|m: nat|
                m < pow2(opts.len()) && v == variant_by_mask(key, opts, m),
    decreases opts.len(),
{
    lemma2_to64();
    if opts.len() == 0 {
        assert forall|v: Seq<Option<T>>|
            #[trigger] key_variants(key, opts).contains(v) implies exists|m: nat|
            m < pow2(opts.len()) && v == variant_by_mask(key, opts, m) by {
            assert(0 < pow2(0) && v == variant_by_mask(key, opts, 0));
        }
    } else {
        let rest = opts.subrange(1, opts.len() as int);
        let key2 = key.update(opts[0] as int, None);
        lemma_variants_masks(key2, rest);
        lemma_variants_masks(key, rest);
        lemma_pow2_unfold(opts.len());
        assert forall|v: Seq<Option<T>>|
            #[trigger] key_variants(key, opts).contains(v) implies exists|m: nat|
            m < pow2(opts.len()) && v == variant_by_mask(key, opts, m) by {
            assert(rest.len() == opts.len() - 1);
            assert(pow2(opts.len()) == 2 * pow2(rest.len()));
            if key_variants(key2, rest).contains(v) {
                let m = choose|m: nat| m < pow2(rest.len()) && v == variant_by_mask(key2, rest, m);
                assert((2 * m) % 2 == 0 && (2 * m) / 2 == m);
                assert(variant_by_mask(key, opts, 2 * m) == variant_by_mask(key2, rest, m));
                assert(2 * m < pow2(opts.len()) && v == variant_by_mask(key, opts, 2 * m));
            } else {
                assert(key_variants(key, rest).contains(v));
                let m = choose|m: nat| m < pow2(rest.len()) && v == variant_by_mask(key, rest, m);
                assert((2 * m + 1) % 2 == 1 && (2 * m + 1) / 2 == m);
                assert(variant_by_mask(key, opts, 2 * m + 1) == variant_by_mask(key, rest, m));
                assert(2 * m + 1 < pow2(opts.len()) && v == variant_by_mask(key, opts, 2 * m + 1));
            }
        }
        assert forall|v: Seq<Option<T>>|
            (exists|m: nat|
                m < pow2(opts.len()) && v == variant_by_mask(
                    key,
                    opts,
                    m,
                )) implies #[trigger] key_variants(key, opts).contains(v) by {
            let m = choose|m: nat| m < pow2(opts.len()) && v == variant_by_mask(key, opts, m);
            if m % 2 == 0 {
                assert(variant_by_mask(key, opts, m) == variant_by_mask(key2, rest, m / 2));
                assert(m / 2 < pow2(rest.len()) && v == variant_by_mask(key2, rest, m / 2));
                assert(key_variants(key2, rest).contains(v));
            } else {
                assert(variant_by_mask(key, opts, m) == variant_by_mask(key, rest, m / 2));
                assert(m / 2 < pow2(rest.len()) && v == variant_by_mask(key, rest, m / 2));
                assert(key_variants(key, rest).contains(v));
            }
        }
    }
}

/// A model's full state as plain data: the order, the optional positions,
/// and every context key with its weighted sides. This is the form a host
/// hands to whatever serialisation back-end it uses; `to_data` and
/// `from_data` carry a model to it and back.
pub struct ModelData<T> {
    pub order: usize,
    pub optional_elements: Vec<usize>,
    pub entries: Vec<(Vec<Option<T>>, Vec<die::WeightedSide<T>>)>,
}

/// Whether plain data describes a model at all: optional positions distinct
/// and below the order, keys of the right length and pairwise distinct, and
/// each context's sides distinct with a total weight that fits.
pub open spec fn data_valid<T>(d: ModelData<T>) -> bool {
    &&& (forall|i: int|
        0 <= i < d.optional_elements@.len() ==> (#[trigger] d.optional_elements@[i]) < d.order)
    &&& (forall|i: int, j: int|
        0 <= i < j < d.optional_elements@.len() ==> d.optional_elements@[i]
            != d.optional_elements@[j])
    &&& (forall|i: int|
        0 <= i < d.entries@.len() ==> (#[trigger] d.entries@[i]).0@.len() == d.order)
    &&& (forall|i: int, j: int|
        0 <= i < j < d.entries@.len() ==> d.entries@[i].0@ != d.entries@[j].0@)
    &&& (forall|i: int, a: int, b: int|
        #![trigger d.entries@[i].1@[a], d.entries@[i].1@[b]]
        0 <= i < d.entries@.len() && 0 <= a < b < d.entries@[i].1@.len()
            ==> d.entries@[i].1@[a].element != d.entries@[i].1@[b].element)
    &&& (forall|i: int|
        0 <= i < d.entries@.len() ==> crate::die::sum_weights((#[trigger] d.entries@[i]).1@)
            <= u64::MAX)
}

/// Whether `d` is a faithful description of the model `m`: same order and
/// optional positions, and entry for entry the same key with sides whose
/// (element, weight) pairs are the key's distribution.
pub open spec fn represents<T: Element>(d: ModelData<T>, m: MarkovChain<T>) -> bool {
    &&& m.spec_order() == d.order
    &&& m.optionals() == d.optional_elements@
    &&& m.n_keys() == d.entries@.len()
    &&& (forall|i: int| 0 <= i < d.entries@.len() ==> m.has_key((#[trigger] d.entries@[i]).0@))
    &&& (forall|i: int|
        0 <= i < d.entries@.len() ==> m.die_for((#[trigger] d.entries@[i]).0@).pairs()
            == crate::die::side_pairs(d.entries@[i].1@))
    &&& (forall|k: Seq<Option<T>>|
        #[trigger] m.has_key(k) ==> exists|i: int|
            0 <= i < d.entries@.len() && (#[trigger] d.entries@[i]).0@ == k)
}

/// Whether two models hold the same content: the same order, the same set
/// of optional positions, dies for the same context keys, and under every
/// key the same weight for every element — whatever order the entries or
/// the faces sit in.
pub open spec fn models_content_eq<T: Element>(a: MarkovChain<T>, b: MarkovChain<T>) -> bool {
    &&& a.spec_order() == b.spec_order()
    &&& (forall|p: usize| #[trigger] a.optionals().contains(p) <==> b.optionals().contains(p))
    &&& (forall|k: Seq<Option<T>>| #[trigger] a.has_key(k) == b.has_key(k))
    &&& (forall|k: Seq<Option<T>>|
        #[trigger] a.has_key(k) ==> forall|e: T|
            #[trigger] a.die_for(k).weight_of(e) == b.die_for(k).weight_of(e))
}

/// Round trip through plain data: any two models that the same data
/// describes hold the same content. In particular, rebuilding a model from
/// its own exported data (`from_data` after `to_data`, through whatever
/// serialisation carried the data) yields a model content-equal to the
/// original.
pub proof fn lemma_round_trip<T: Element>(d: ModelData<T>, m1: MarkovChain<T>, m2: MarkovChain<T>)
    requires
        m1.wf(),
        m2.wf(),
        represents(d, m1),
        represents(d, m2),
    ensures
        models_content_eq(m1, m2),
{
    assert forall|k: Seq<Option<T>>| #[trigger] m1.has_key(k) == m2.has_key(k) by {
        if m1.has_key(k) {
            let i = choose|i: int|
                0 <= i < d.entries@.len() && (#[trigger] d.entries@[i]).0@ == k;
            assert(m2.has_key(d.entries@[i].0@));
        }
        if m2.has_key(k) {
            let i = choose|i: int|
                0 <= i < d.entries@.len() && (#[trigger] d.entries@[i]).0@ == k;
            assert(m1.has_key(d.entries@[i].0@));
        }
    }
    assert forall|k: Seq<Option<T>>| #[trigger] m1.has_key(k) implies forall|e: T|
        #[trigger] m1.die_for(k).weight_of(e) == m2.die_for(k).weight_of(e) by {
        let i = choose|i: int| 0 <= i < d.entries@.len() && (#[trigger] d.entries@[i]).0@ == k;
        assert(m1.die_for(k).pairs() == crate::die::side_pairs(d.entries@[i].1@));
        assert(m2.die_for(k).pairs() == crate::die::side_pairs(d.entries@[i].1@));
        crate::die::WeightedDie::<T>::lemma_pairs_determine_content(
            m1.die_for(k),
            m2.die_for(k),
        );
    }
}

/// A model of order 2 whose position 0 is optional, trained once from a
/// fresh state on the context `(x, y)` leading to `z`, answers the partial
/// context `(unknown, y)` with `z` as the only possible draw — the wildcard
/// expansion at training time recorded the observation under that partial
/// key too. The hypotheses are exactly what `train`'s contract yields for
/// one call on an empty model.
pub proof fn lemma_wildcard_reaches_partial<T: Element>(
    m1: MarkovChain<T>,
    x: T,
    y: T,
    z: T,
    delta: int,
    pw: Seq<Option<T>>,
)
    requires
        m1.wf(),
        m1.spec_order() == 2,
        0 < delta,
        pw == seq![None::<T>, Some(y)],
        forall|kv: Seq<Option<T>>|
            key_variants(full_key(seq![x, y], 2), seq![0usize]).contains(kv)
                ==> #[trigger] m1.has_key(kv),
        forall|kv: Seq<Option<T>>|
            key_variants(full_key(seq![x, y], 2), seq![0usize]).contains(kv)
                ==> #[trigger] m1.die_for(kv).pairs() == crate::die::modify_pairs(
                Seq::<(T, int)>::empty(),
                z,
                delta,
            ),
    ensures
        m1.has_key(partial_key(pw, 2)),
        m1.die_for(partial_key(pw, 2)).total() == delta,
        forall|p: int|
            0 <= p < delta ==> #[trigger] m1.die_for(partial_key(pw, 2)).select(p) == z,
{
    let fk = full_key(seq![x, y], 2);
    let wk: Seq<Option<T>> = seq![None, Some(y)];
    assert(fk =~= seq![Some(x), Some(y)]);
    assert(partial_key(pw, 2) =~= wk);
    let opts: Seq<usize> = seq![0usize];
    assert(key_variants(fk, opts).contains(wk)) by {
        let rest = opts.subrange(1, 1);
        assert(rest =~= Seq::<usize>::empty());
        assert(fk.update(0, None) =~= wk);
        assert(key_variants(fk.update(0, None), rest) == Set::empty().insert(
            fk.update(0, None),
        ));
        assert(key_variants(fk.update(0, None), rest).contains(wk));
    }
    assert(m1.has_key(wk));
    let d = m1.die_for(wk);
    assert(d.wf()) by {
        let i = m1.key_index(wk);
        assert(0 <= i < m1.n_keys() && m1.entries()[i].key@ == wk);
    }
    let empty_pairs = Seq::<(T, int)>::empty();
    assert(d.pairs() == crate::die::modify_pairs(empty_pairs, z, delta));
    assert(!crate::die::pairs_has(empty_pairs, z));
    assert(d.pairs() =~= seq![(z, delta)]);
    assert(d.pairs().len() == d.n_sides());
    assert(d.n_sides() == 1);
    assert(d.pairs()[0] == (d.elems()[0], d.weight_at(0)));
    assert(d.elems()[0] == z && d.weight_at(0) == delta);
    assert(d.total() == d.cum()[0]);
    assert(d.total() == delta);
    assert forall|p: int| 0 <= p < delta implies #[trigger] d.select(p) == z by {
        d.lemma_sel_unique(p, 0);
    }
}

/// Whether `k` is the view of one of the first `n` keys in `keys`.
spec fn among<T>(keys: Seq<Vec<Option<T>>>, n: int, k: Seq<Option<T>>) -> bool {
    exists|m: int| 0 <= m < n && (#[trigger] keys[m])@ == k
}

/// Whether `p` occurs among the first `n` entries of `s`.
pub open spec fn in_prefix(s: Seq<usize>, n: int, p: usize) -> bool {
    exists|w: int| 0 <= w < n && s[w] == p
}

/// The context key a full window yields: its last `order` elements, each
/// marked known.
pub open spec fn full_key<T>(view: Seq<T>, order: nat) -> Seq<Option<T>> {
    Seq::new(order, |j: int| Some(view[view.len() - order + j]))
}

/// The context key a partial window yields: its last `order` slots.
pub open spec fn partial_key<T>(view: Seq<Option<T>>, order: nat) -> Seq<Option<T>> {
    Seq::new(order, |j: int| view[view.len() - order + j])
}

impl<T: Element> MarkovChain<T> {
    /// The order of the model.
    pub closed spec fn spec_order(self) -> nat {
        self.order as nat
    }

    /// The optional context positions, in the order they are kept.
    pub closed spec fn optionals(self) -> Seq<usize> {
        self.optional_elements@
    }

    /// The (key, die) entries, in insertion order.
    spec fn entries(self) -> Seq<ModelEntry<T>> {
        self.probability_map@
    }

    /// How many context keys the model holds.
    pub closed spec fn n_keys(self) -> nat {
        self.entries().len()
    }

    /// Structural invariant: every key has exactly `order` slots, keys are
    /// pairwise distinct, every die is well formed, and the optional
    /// positions are distinct and below the order.
    pub closed spec fn wf(self) -> bool {
        &&& (forall|i: int|
            0 <= i < self.n_keys() ==> (#[trigger] self.entries()[i]).key@.len()
                == self.spec_order() && self.entries()[i].die.wf())
        &&& (forall|i: int, j: int|
            0 <= i < j < self.n_keys() ==> self.entries()[i].key@ != self.entries()[j].key@)
        &&& (forall|i: int|
            0 <= i < self.optionals().len() ==> ((#[trigger] self.optionals()[i]) as nat)
                < self.spec_order())
        &&& (forall|i: int, j: int|
            0 <= i < j < self.optionals().len() ==> self.optionals()[i] != self.optionals()[j])
    }

    /// Whether the model holds a die for the key `k`.
    pub closed spec fn has_key(self, k: Seq<Option<T>>) -> bool {
        exists|i: int| 0 <= i < self.n_keys() && (#[trigger] self.entries()[i]).key@ == k
    }

    /// The position of the key `k` (meaningful when `has_key(k)`; unique
    /// under `wf`).
    pub closed spec fn key_index(self, k: Seq<Option<T>>) -> int {
        choose|i: int| 0 <= i < self.n_keys() && (#[trigger] self.entries()[i]).key@ == k
    }

    /// The die of the key `k`.
    pub closed spec fn die_for(self, k: Seq<Option<T>>) -> die::WeightedDie<T> {
        self.entries()[self.key_index(k)].die
    }

    /// Every die the model holds is well formed.
    pub proof fn lemma_die_wf(self, k: Seq<Option<T>>)
        requires
            self.wf(),
            self.has_key(k),
        ensures
            self.die_for(k).wf(),
    {
        let i = self.key_index(k);
        assert(0 <= i < self.n_keys() && self.entries()[i].key@ == k);
    }

    /// The entry at position `i` identifies itself: `key_index` and
    /// `die_for` agree with position `i`.
    proof fn lemma_key_at(self, i: int)
        requires
            self.wf(),
            0 <= i < self.n_keys(),
        ensures
            self.has_key(self.entries()[i].key@),
            self.key_index(self.entries()[i].key@) == i,
            self.die_for(self.entries()[i].key@) == self.entries()[i].die,
    {
        let k = self.entries()[i].key@;
        assert(self.has_key(k));
        let j = self.key_index(k);
        if j != i {
            if j < i {
                assert(self.entries()[j].key@ != self.entries()[i].key@);
            } else {
                assert(self.entries()[i].key@ != self.entries()[j].key@);
            }
        }
    }

    /// Creates a new model.
    ///
    /// `order` is how many of the most recent elements a context holds; 1 is
    /// the usual Markov chain, 0 a single context-free sampler.
    /// `optional_elements` names the context positions that training also
    /// wildcards; positions at or past the order are silently dropped, and a
    /// position named twice counts once. Each optional position doubles the
    /// number of keys a training call touches.
    pub fn new(order: usize, optional_elements: &[usize]) -> (r: Self)
        ensures
            r.wf(),
            r.spec_order() == order,
            r.n_keys() == 0,
            forall|k: Seq<Option<T>>| !r.has_key(k),
            forall|p: usize|
                #[trigger] r.optionals().contains(p) <==> (optional_elements@.contains(p)
                    && p < order),
    {
        let mut opts: Vec<usize> = Vec::new();
        let mut i: usize = 0;
        while i < optional_elements.len()
            invariant
                i <= optional_elements@.len(),
                forall|a: int|
                    0 <= a < opts@.len() ==> (#[trigger] opts@[a]) < order && in_prefix(
                        optional_elements@,
                        i as int,
                        opts@[a],
                    ),
                forall|a: int, b: int| 0 <= a < b < opts@.len() ==> opts@[a] != opts@[b],
                forall|p: usize|
                    (#[trigger] in_prefix(optional_elements@, i as int, p) && p < order)
                        ==> opts@.contains(p),
            decreases optional_elements@.len() - i,
        {
            let ghost prev = opts@;
            let candidate = optional_elements[i];
            if candidate < order && !Self::position_known(&opts, candidate) {
                opts.push(candidate);
            }
            proof {
                assert(optional_elements@[i as int] == candidate);
                assert forall|p: usize|
                    in_prefix(optional_elements@, i + 1, p) && p < order implies opts@.contains(
                    p,
                ) by {
                    let w = choose|w: int|
                        0 <= w < i + 1 && optional_elements@[w] == p;
                    if w < i {
                        assert(in_prefix(optional_elements@, i as int, p));
                        assert(prev.contains(p));
                        let a = choose|a: int| 0 <= a < prev.len() && prev[a] == p;
                        assert(opts@[a] == p);
                    } else {
                        assert(p == candidate);
                        assert(opts@.contains(p)) by {
                            if prev.contains(p) {
                                let a = choose|a: int| 0 <= a < prev.len() && prev[a] == p;
                                assert(opts@[a] == p);
                            } else {
                                assert(opts@[opts@.len() - 1] == p);
                            }
                        }
                    }
                }
                assert forall|a: int|
                    0 <= a < opts@.len() implies (#[trigger] opts@[a]) < order && in_prefix(
                        optional_elements@,
                        i + 1,
                        opts@[a],
                    ) by {
                    if a < prev.len() {
                        assert(in_prefix(optional_elements@, i as int, prev[a]));
                        let w = choose|w: int|
                            0 <= w < i && optional_elements@[w] == prev[a];
                        assert(0 <= w < i + 1 && optional_elements@[w] == opts@[a]);
                    } else {
                        assert(opts@[a] == candidate);
                        assert(optional_elements@[i as int] == opts@[a]);
                    }
                }
            }
            i = i + 1;
        }
        proof {
            assert forall|p: usize|
                #[trigger] opts@.contains(p) implies (optional_elements@.contains(p) && p
                    < order) by {
                let a = choose|a: int| 0 <= a < opts@.len() && opts@[a] == p;
                assert(opts@[a] < order && in_prefix(optional_elements@, i as int, opts@[a]));
                let w = choose|w: int| 0 <= w < i && optional_elements@[w] == p;
                assert(optional_elements@[w] == p);
            }
            assert forall|p: usize|
                optional_elements@.contains(p) && p < order implies #[trigger] opts@.contains(
                p,
            ) by {
                let w = choose|w: int|
                    0 <= w < optional_elements@.len() && optional_elements@[w] == p;
                assert(in_prefix(optional_elements@, i as int, p));
            }
        }
        MarkovChain { order, probability_map: Vec::new(), optional_elements: opts }
    }

    /// Whether `positions` already holds `p`.
    fn position_known(positions: &Vec<usize>, p: usize) -> (r: bool)
        ensures
            r <==> positions@.contains(p),
    {
        let mut i: usize = 0;
        while i < positions.len()
            invariant
                i <= positions@.len(),
                forall|j: int| 0 <= j < i ==> positions@[j] != p,
            decreases positions@.len() - i,
        {
            if positions[i] == p {
                return true;
            }
            i = i + 1;
        }
        false
    }

    /// The last `order` slots of a partial window, as an owned key.
    fn to_partial_key(order: usize, view: &[Option<T>]) -> (r: Vec<Option<T>>)
        requires
            view@.len() >= order,
        ensures
            r@ == partial_key(view@, order as nat),
    {
        let mut key: Vec<Option<T>> = Vec::new();
        let start = view.len() - order;
        let mut i: usize = start;
        while i < view.len()
            invariant
                start == view@.len() - order,
                start <= i <= view@.len(),
                key@.len() == i - start,
                forall|j: int| 0 <= j < key@.len() ==> key@[j] == view@[start + j],
            decreases view@.len() - i,
        {
            key.push(view[i]);
            i = i + 1;
        }
        proof {
            assert(key@ =~= partial_key(view@, order as nat));
        }
        key
    }

    /// The last `order` elements of a full window, each marked known, as an
    /// owned key.
    fn to_full_key(order: usize, view: &[T]) -> (r: Vec<Option<T>>)
        requires
            view@.len() >= order,
        ensures
            r@ == full_key(view@, order as nat),
    {
        let mut key: Vec<Option<T>> = Vec::new();
        let start = view.len() - order;
        let mut i: usize = start;
        while i < view.len()
            invariant
                start == view@.len() - order,
                start <= i <= view@.len(),
                key@.len() == i - start,
                forall|j: int| 0 <= j < key@.len() ==> key@[j] == Some(view@[start + j]),
            decreases view@.len() - i,
        {
            key.push(Some(view[i]));
            i = i + 1;
        }
        proof {
            assert(key@ =~= full_key(view@, order as nat));
        }
        key
    }

    /// Whether two key slots hold the same value.
    fn slots_equal(a: &Option<T>, b: &Option<T>) -> (r: bool)
        ensures
            r <==> *a == *b,
    {
        match (a, b) {
            (None, None) => true,
            (Some(x), Some(y)) => x.eq_elem(y),
            _ => false,
        }
    }

    /// Whether two keys hold the same slots.
    fn keys_equal(a: &Vec<Option<T>>, b: &Vec<Option<T>>) -> (r: bool)
        ensures
            r <==> a@ == b@,
    {
        if a.len() != b.len() {
            return false;
        }
        let mut i: usize = 0;
        while i < a.len()
            invariant
                a@.len() == b@.len(),
                i <= a@.len(),
                forall|j: int| 0 <= j < i ==> a@[j] == b@[j],
            decreases a@.len() - i,
        {
            if !Self::slots_equal(&a[i], &b[i]) {
                return false;
            }
            i = i + 1;
        }
        proof {
            assert(a@ =~= b@);
        }
        true
    }

    /// An owned copy of a key.
    fn copy_key(key: &Vec<Option<T>>) -> (r: Vec<Option<T>>)
        ensures
            r@ == key@,
    {
        let mut out: Vec<Option<T>> = Vec::new();
        let mut i: usize = 0;
        while i < key.len()
            invariant
                i <= key@.len(),
                out@.len() == i,
                forall|j: int| 0 <= j < i ==> out@[j] == key@[j],
            decreases key@.len() - i,
        {
            out.push(key[i]);
            i = i + 1;
        }
        proof {
            assert(out@ =~= key@);
        }
        out
    }

    /// All `2^k` variants of a fully known key, `k` being the number of
    /// optional positions: each optional position independently kept or
    /// replaced by "unknown". Variant `m` keeps the position `optionals[j]`
    /// exactly when bit `j` of `m` is set.
    fn permute_key(optionals: &Vec<usize>, key: &Vec<Option<T>>) -> (r: Vec<Vec<Option<T>>>)
        requires
            optionals@.len() <= 63,
            forall|i: int| 0 <= i < optionals@.len() ==> (#[trigger] optionals@[i]) < key@.len(),
            forall|i: int, j: int| 0 <= i < j < optionals@.len() ==> optionals@[i] != optionals@[j],
            forall|i: int|
                0 <= i < optionals@.len() ==> (#[trigger] key@[optionals@[i] as int]) is Some,
        ensures
            r@.len() == pow2(optionals@.len()),
            forall|m: int|
                0 <= m < r@.len() ==> (#[trigger] r@[m])@ == variant_by_mask(
                    key@,
                    optionals@,
                    m as nat,
                ),
            forall|m1: int, m2: int| 0 <= m1 < m2 < r@.len() ==> r@[m1]@ != r@[m2]@,
    {
        let k = optionals.len();
        let mut count: u64 = 1;
        let mut j: usize = 0;
        proof {
            lemma2_to64();
        }
        while j < k
            invariant
                j <= k,
                k <= 63,
                count == pow2(j as nat),
            decreases k - j,
        {
            proof {
                vstd::bits::lemma_u64_pow2_no_overflow((j + 1) as nat);
                lemma_pow2_unfold((j + 1) as nat);
            }
            count = count * 2;
            j = j + 1;
        }
        let mut r: Vec<Vec<Option<T>>> = Vec::new();
        let mut m: u64 = 0;
        while m < count
            invariant
                k == optionals@.len(),
                k <= 63,
                count == pow2(k as nat),
                forall|i: int|
                    0 <= i < optionals@.len() ==> (#[trigger] optionals@[i]) < key@.len(),
                m <= count,
                r@.len() == m,
                forall|x: int|
                    0 <= x < r@.len() ==> (#[trigger] r@[x])@ == variant_by_mask(
                        key@,
                        optionals@,
                        x as nat,
                    ),
            decreases count - m,
        {
            let mut cur = Self::copy_key(key);
            let mut rem: u64 = m;
            let mut j2: usize = 0;
            proof {
                assert(optionals@.subrange(0, k as int) =~= optionals@);
            }
            while j2 < k
                invariant
                    j2 <= k,
                    k == optionals@.len(),
                    forall|i: int|
                        0 <= i < optionals@.len() ==> (#[trigger] optionals@[i]) < key@.len(),
                    cur@.len() == key@.len(),
                    variant_by_mask(key@, optionals@, m as nat) == variant_by_mask(
                        cur@,
                        optionals@.subrange(j2 as int, k as int),
                        rem as nat,
                    ),
                decreases k - j2,
            {
                proof {
                    let sub = optionals@.subrange(j2 as int, k as int);
                    assert(sub[0] == optionals@[j2 as int]);
                    assert(sub.subrange(1, sub.len() as int) =~= optionals@.subrange(
                        j2 + 1,
                        k as int,
                    ));
                }
                if rem % 2 == 0 {
                    let p = optionals[j2];
                    cur.set(p, None);
                }
                rem = rem / 2;
                j2 = j2 + 1;
            }
            proof {
                assert(optionals@.subrange(k as int, k as int) =~= Seq::<usize>::empty());
                assert(cur@ == variant_by_mask(key@, optionals@, m as nat));
            }
            r.push(cur);
            m = m + 1;
        }
        proof {
            assert forall|m1: int, m2: int|
                0 <= m1 < m2 < r@.len() implies r@[m1]@ != r@[m2]@ by {
                lemma_variants_distinct(key@, optionals@, m1 as nat, m2 as nat);
            }
        }
        r
    }

    /// Feeds one observation into the model: the last `order` elements of
    /// `view` form the context, and `result` is the element whose weight
    /// changes by `weight_delta` under that context — under the exact key and
    /// under every wildcarded variant of it, so partial-context queries can
    /// be answered later.
    ///
    /// A window shorter than the order, a delta whose magnitude cannot be
    /// represented, an optional-position set too large to enumerate, and a
    /// delta that would push some touched sampler's total weight past
    /// `u64::MAX` are each reported as an error, and the model is left
    /// unchanged.
    #[verifier::rlimit(100)]
    #[verifier::spinoff_prover]
    pub fn train(&mut self, view: &[T], result: T, weight_delta: i32) -> (r: Result<
        (),
        ModelError,
    >)
        requires
            old(self).wf(),
        ensures
            final(self).wf(),
            final(self).spec_order() == old(self).spec_order(),
            final(self).optionals() == old(self).optionals(),
            match r {
                Ok(()) => {
                    let vars = key_variants(
                        full_key(view@, old(self).spec_order()),
                        old(self).optionals(),
                    );
                    &&& view@.len() >= old(self).spec_order()
                    &&& weight_delta != i32::MIN
                    &&& (forall|kv: Seq<Option<T>>|
                        vars.contains(kv) ==> #[trigger] final(self).has_key(kv))
                    &&& (forall|kv: Seq<Option<T>>|
                        vars.contains(kv) ==> #[trigger] final(self).die_for(kv).pairs()
                            == crate::die::modify_pairs(
                            if old(self).has_key(kv) {
                                old(self).die_for(kv).pairs()
                            } else {
                                Seq::<(T, int)>::empty()
                            },
                            result,
                            weight_delta as int,
                        ))
                    &&& (forall|k2: Seq<Option<T>>|
                        !vars.contains(k2) ==> #[trigger] final(self).has_key(k2) == old(
                            self,
                        ).has_key(k2))
                    &&& (forall|k2: Seq<Option<T>>|
                        !vars.contains(k2) && old(self).has_key(k2) ==> #[trigger] final(self).die_for(k2) == old(self).die_for(k2))
                },
                Err(e) => {
                    let vars = key_variants(
                        full_key(view@, old(self).spec_order()),
                        old(self).optionals(),
                    );
                    &&& final(self).n_keys() == old(self).n_keys()
                    &&& (forall|k2: Seq<Option<T>>|
                        #[trigger] final(self).has_key(k2) == old(self).has_key(k2))
                    &&& (forall|k2: Seq<Option<T>>|
                        old(self).has_key(k2) ==> #[trigger] final(self).die_for(k2) == old(
                            self,
                        ).die_for(k2))
                    &&& (e == ModelError::UndersizedWindow <==> view@.len() < old(
                        self,
                    ).spec_order())
                    &&& (e == ModelError::WeightDeltaOverflow <==> view@.len() >= old(
                        self,
                    ).spec_order() && weight_delta == i32::MIN)
                    &&& (e == ModelError::CapacityExceeded <==> view@.len() >= old(
                        self,
                    ).spec_order() && weight_delta != i32::MIN && old(self).optionals().len() > 63)
                    &&& (e == ModelError::WeightOverflow ==> weight_delta > 0 && exists|
                        kv: Seq<Option<T>>,
                    |
                        vars.contains(kv) && old(self).has_key(kv) && (#[trigger] old(
                            self,
                        ).die_for(kv)).total() + weight_delta > u64::MAX)
                },
            },
    {
        if view.len() < self.order {
            return Err(ModelError::UndersizedWindow);
        }
        if weight_delta == i32::MIN {
            return Err(ModelError::WeightDeltaOverflow);
        }
        if self.optional_elements.len() > 63 {
            return Err(ModelError::CapacityExceeded);
        }
        let key = Self::to_full_key(self.order, view);
        proof {
            assert forall|i: int|
                0 <= i < self.optionals().len() implies (#[trigger] key@[self.optionals()[i] as int])
                is Some by {}
        }
        let variants = Self::permute_key(&self.optional_elements, &key);
        let ghost vars = key_variants(full_key(view@, self.spec_order()), self.optionals());
        proof {
            lemma_variants_masks::<T>(key@, self.optionals());
            assert forall|m: int|
                0 <= m < variants@.len() implies (#[trigger] variants@[m])@.len() == self.spec_order()
                && vars.contains(variants@[m]@) by {
                lemma_variant_char::<T>(key@, self.optionals(), m as nat);
            }
        }
        if weight_delta > 0 {
            let mut c: usize = 0;
            while c < variants.len()
                invariant
                    self.wf(),
                    *self == *old(self),
                    weight_delta > 0,
                    weight_delta != i32::MIN,
                    view@.len() >= self.spec_order(),
                    self.optionals().len() <= 63,
                    vars == key_variants(
                        full_key(view@, old(self).spec_order()),
                        old(self).optionals(),
                    ),
                    forall|m: int|
                        0 <= m < variants@.len() ==> vars.contains((#[trigger] variants@[m])@),
                    c <= variants@.len(),
                    forall|x: int|
                        0 <= x < c && self.has_key((#[trigger] variants@[x])@) ==> self.die_for(
                            variants@[x]@,
                        ).total() + weight_delta <= u64::MAX,
                decreases variants@.len() - c,
            {
                match self.find_entry(&variants[c]) {
                    Some(idx) => {
                        proof {
                            self.lemma_key_at(idx as int);
                        }
                        let t = self.probability_map[idx].die.total_weight();
                        if weight_delta as u64 > u64::MAX - t {
                            proof {
                                assert(vars.contains(variants@[c as int]@));
                            }
                            return Err(ModelError::WeightOverflow);
                        }
                    },
                    None => {},
                }
                c = c + 1;
            }
        }
        let ghost pre_all = *self;
        let mut v: usize = 0;
        while v < variants.len()
            invariant
                self.wf(),
                *old(self) == pre_all,
                old(self).wf(),
                self.spec_order() == old(self).spec_order(),
                self.optionals() == old(self).optionals(),
                weight_delta != i32::MIN,
                v <= variants@.len(),
                forall|m: int|
                    0 <= m < variants@.len() ==> (#[trigger] variants@[m])@.len() == old(
                        self,
                    ).spec_order(),
                forall|m1: int, m2: int|
                    0 <= m1 < m2 < variants@.len() ==> variants@[m1]@ != variants@[m2]@,
                weight_delta > 0 ==> forall|x: int|
                    0 <= x < variants@.len() && old(self).has_key((#[trigger] variants@[x])@)
                        ==> old(self).die_for(variants@[x]@).total() + weight_delta <= u64::MAX,
                forall|x: int| 0 <= x < v ==> #[trigger] self.has_key(variants@[x]@),
                forall|x: int|
                    0 <= x < v ==> #[trigger] self.die_for(variants@[x]@).pairs()
                        == crate::die::modify_pairs(
                        if old(self).has_key(variants@[x]@) {
                            old(self).die_for(variants@[x]@).pairs()
                        } else {
                            Seq::<(T, int)>::empty()
                        },
                        result,
                        weight_delta as int,
                    ),
                forall|k2: Seq<Option<T>>|
                    !among(variants@, v as int, k2) ==> #[trigger] self.has_key(k2) == old(
                        self,
                    ).has_key(k2),
                forall|k2: Seq<Option<T>>|
                    !among(variants@, v as int, k2) && old(self).has_key(k2)
                        ==> #[trigger] self.die_for(k2) == old(self).die_for(k2),
            decreases variants@.len() - v,
        {
            let ghost pre = *self;
            let ghost kv = variants@[v as int]@;
            proof {
                assert(!among(variants@, v as int, kv)) by {
                    if among(variants@, v as int, kv) {
                        let x = choose|x: int| 0 <= x < v && (#[trigger] variants@[x])@ == kv;
                        assert(variants@[x]@ != variants@[v as int]@);
                    }
                }
            }
            let found = self.find_entry(&variants[v]);
            match found {
                Some(idx) => {
                    proof {
                        pre.lemma_key_at(idx as int);
                        assert(pre.die_for(kv) == pre.entries()[idx as int].die);
                        if weight_delta > 0 {
                            assert(old(self).die_for(kv).total() + weight_delta <= u64::MAX);
                        }
                    }
                    let res = self.probability_map[idx].die.modify(result, weight_delta);
                    proof {
                        assert(res is Ok);
                        assert(self.entries()[idx as int].key@ == kv);
                        assert(self.wf()) by {
                            assert forall|a: int, b: int|
                                0 <= a < b < self.n_keys() implies self.entries()[a].key@
                                != self.entries()[b].key@ by {
                                assert(pre.entries()[a].key@ != pre.entries()[b].key@);
                            }
                        }
                        self.lemma_key_at(idx as int);
                        assert forall|k2: Seq<Option<T>>|
                            k2 != kv implies #[trigger] self.has_key(k2) == pre.has_key(k2) by {
                            if pre.has_key(k2) {
                                let j = pre.key_index(k2);
                                assert(self.entries()[j].key@ == k2);
                            } else {
                                assert forall|j: int|
                                    0 <= j < self.n_keys() implies (
                                #[trigger] self.entries()[j]).key@ != k2 by {
                                    assert(pre.entries()[j].key@ != k2);
                                }
                            }
                        }
                        assert forall|k2: Seq<Option<T>>|
                            k2 != kv && pre.has_key(k2) implies #[trigger] self.die_for(k2)
                                == pre.die_for(k2) by {
                            let j = pre.key_index(k2);
                            pre.lemma_key_at(j);
                            self.lemma_key_at(j);
                        }
                    }
                },
                None => {
                    let mut die = die::WeightedDie::<T>::new(Vec::new());
                    proof {
                        reveal(Seq::filter);
                        assert(die.pairs() =~= Seq::<(T, int)>::empty());
                    }
                    let res = die.modify(result, weight_delta);
                    match res {
                        Ok(()) => {},
                        Err(_) => {
                            proof {
                                assert(false);
                            }
                        },
                    }
                    let key_copy = Self::copy_key(&variants[v]);
                    self.probability_map.push(ModelEntry { key: key_copy, die });
                    proof {
                        let n = pre.n_keys() as int;
                        assert(self.entries()[n].key@ == kv);
                        assert(self.wf()) by {
                            assert forall|a: int, b: int|
                                0 <= a < b < self.n_keys() implies self.entries()[a].key@
                                != self.entries()[b].key@ by {
                                if b < n {
                                    assert(pre.entries()[a].key@ != pre.entries()[b].key@);
                                } else {
                                    assert(pre.entries()[a].key@ != kv);
                                }
                            }
                        }
                        self.lemma_key_at(n);
                        assert forall|k2: Seq<Option<T>>|
                            k2 != kv implies #[trigger] self.has_key(k2) == pre.has_key(k2) by {
                            if pre.has_key(k2) {
                                let j = pre.key_index(k2);
                                assert(self.entries()[j].key@ == k2);
                            } else {
                                assert forall|j: int|
                                    0 <= j < self.n_keys() implies (
                                #[trigger] self.entries()[j]).key@ != k2 by {
                                    if j < n {
                                        assert(pre.entries()[j].key@ != k2);
                                    }
                                }
                            }
                        }
                        assert forall|k2: Seq<Option<T>>|
                            k2 != kv && pre.has_key(k2) implies #[trigger] self.die_for(k2)
                                == pre.die_for(k2) by {
                            let j = pre.key_index(k2);
                            pre.lemma_key_at(j);
                            self.lemma_key_at(j);
                        }
                    }
                },
            }
            proof {
                assert(self.has_key(kv));
                assert(self.die_for(kv).pairs() == crate::die::modify_pairs(
                    if old(self).has_key(kv) {
                        old(self).die_for(kv).pairs()
                    } else {
                        Seq::<(T, int)>::empty()
                    },
                    result,
                    weight_delta as int,
                ));
                assert forall|x: int| 0 <= x < v + 1 implies #[trigger] self.has_key(
                    variants@[x]@,
                ) by {
                    if x < v {
                        assert(variants@[x]@ != kv);
                    }
                }
                assert forall|x: int|
                    0 <= x < v + 1 implies #[trigger] self.die_for(variants@[x]@).pairs()
                        == crate::die::modify_pairs(
                        if old(self).has_key(variants@[x]@) {
                            old(self).die_for(variants@[x]@).pairs()
                        } else {
                            Seq::<(T, int)>::empty()
                        },
                        result,
                        weight_delta as int,
                    ) by {
                    if x < v {
                        assert(variants@[x]@ != kv);
                        assert(self.die_for(variants@[x]@) == pre.die_for(variants@[x]@));
                    }
                }
                assert forall|k2: Seq<Option<T>>|
                    !among(variants@, v + 1, k2) implies #[trigger] self.has_key(k2) == old(
                    self,
                ).has_key(k2) by {
                    assert(k2 != kv) by {
                        if k2 == kv {
                            assert(0 <= v < v + 1 && variants@[v as int]@ == k2);
                        }
                    }
                    assert(!among(variants@, v as int, k2)) by {
                        if among(variants@, v as int, k2) {
                            let x = choose|x: int|
                                0 <= x < v && (#[trigger] variants@[x])@ == k2;
                            assert(0 <= x < v + 1 && variants@[x]@ == k2);
                        }
                    }
                }
                assert forall|k2: Seq<Option<T>>|
                    !among(variants@, v + 1, k2) && old(self).has_key(k2) implies #[trigger] self.die_for(
                    k2,
                ) == old(self).die_for(k2) by {
                    assert(k2 != kv) by {
                        if k2 == kv {
                            assert(0 <= v < v + 1 && variants@[v as int]@ == k2);
                        }
                    }
                    assert(!among(variants@, v as int, k2)) by {
                        if among(variants@, v as int, k2) {
                            let x = choose|x: int|
                                0 <= x < v && (#[trigger] variants@[x])@ == k2;
                            assert(0 <= x < v + 1 && variants@[x]@ == k2);
                        }
                    }
                }
            }
            v = v + 1;
        }
        proof {
            assert forall|kv: Seq<Option<T>>| vars.contains(kv) implies #[trigger] self.has_key(
                kv,
            ) by {
                let m = choose|m: nat|
                    m < pow2(self.optionals().len()) && kv == variant_by_mask(
                        key@,
                        self.optionals(),
                        m,
                    );
                assert(variants@[m as int]@ == kv);
            }
            assert forall|kv: Seq<Option<T>>| vars.contains(kv) implies #[trigger] self.die_for(
                kv,
            ).pairs() == crate::die::modify_pairs(
                if old(self).has_key(kv) {
                    old(self).die_for(kv).pairs()
                } else {
                    Seq::<(T, int)>::empty()
                },
                result,
                weight_delta as int,
            ) by {
                let m = choose|m: nat|
                    m < pow2(self.optionals().len()) && kv == variant_by_mask(
                        key@,
                        self.optionals(),
                        m,
                    );
                assert(variants@[m as int]@ == kv);
            }
            assert forall|k2: Seq<Option<T>>|
                !vars.contains(k2) implies #[trigger] self.has_key(k2) == old(self).has_key(
                k2,
            ) by {
                assert(!among(variants@, variants@.len() as int, k2)) by {
                    if among(variants@, variants@.len() as int, k2) {
                        let x = choose|x: int|
                            0 <= x < variants@.len() && (#[trigger] variants@[x])@ == k2;
                        assert(vars.contains(variants@[x]@));
                    }
                }
            }
            assert forall|k2: Seq<Option<T>>|
                !vars.contains(k2) && old(self).has_key(k2) implies #[trigger] self.die_for(k2)
                    == old(self).die_for(k2) by {
                assert(!among(variants@, variants@.len() as int, k2)) by {
                    if among(variants@, variants@.len() as int, k2) {
                        let x = choose|x: int|
                            0 <= x < variants@.len() && (#[trigger] variants@[x])@ == k2;
                        assert(vars.contains(variants@[x]@));
                    }
                }
            }
        }
        Ok(())
    }

    /// Draws the next element after a fully known window, with a
    /// caller-supplied draw value for a reproducible result.
    ///
    /// The value is wrapped around modulo the context's total weight, so any
    /// value is valid. A context that was never trained, or holds no weight,
    /// yields nothing.
    pub fn generate_deterministic(&self, view: &[T], rand_val: u64) -> (r: Result<
        Option<T>,
        ModelError,
    >)
        requires
            self.wf(),
        ensures
            r is Err <==> view@.len() < self.spec_order(),
            r is Err ==> r == Err::<Option<T>, ModelError>(ModelError::UndersizedWindow),
            match r {
                Ok(res) => {
                    let k = full_key(view@, self.spec_order());
                    &&& (!self.has_key(k) ==> res is None)
                    &&& (self.has_key(k) ==> {
                        let d = self.die_for(k);
                        res == (if d.total() == 0 {
                            None::<T>
                        } else {
                            Some(d.select((rand_val as int) % d.total()))
                        })
                    })
                },
                Err(_) => true,
            },
    {
        if view.len() < self.order {
            return Err(ModelError::UndersizedWindow);
        }
        let key = Self::to_full_key(self.order, view);
        match self.find_entry(&key) {
            Some(i) => {
                proof {
                    self.lemma_key_at(i as int);
                }
                Ok(self.probability_map[i].die.roll(Some(rand_val)))
            },
            None => Ok(None),
        }
    }

    /// Draws the next element after a partially known window, with a
    /// caller-supplied draw value for a reproducible result.
    ///
    /// Unknown slots match only keys trained with a wildcard there, which
    /// training produces for the positions named optional at construction.
    pub fn generate_deterministic_from_partial(&self, view: &[Option<T>], rand_val: u64) -> (r:
        Result<Option<T>, ModelError>)
        requires
            self.wf(),
        ensures
            r is Err <==> view@.len() < self.spec_order(),
            r is Err ==> r == Err::<Option<T>, ModelError>(ModelError::UndersizedWindow),
            match r {
                Ok(res) => {
                    let k = partial_key(view@, self.spec_order());
                    &&& (!self.has_key(k) ==> res is None)
                    &&& (self.has_key(k) ==> {
                        let d = self.die_for(k);
                        res == (if d.total() == 0 {
                            None::<T>
                        } else {
                            Some(d.select((rand_val as int) % d.total()))
                        })
                    })
                },
                Err(_) => true,
            },
    {
        if view.len() < self.order {
            return Err(ModelError::UndersizedWindow);
        }
        let key = Self::to_partial_key(self.order, view);
        match self.find_entry(&key) {
            Some(i) => {
                proof {
                    self.lemma_key_at(i as int);
                }
                Ok(self.probability_map[i].die.roll(Some(rand_val)))
            },
            None => Ok(None),
        }
    }

    /// Draws the next element after a fully known window, using a random
    /// draw value.
    pub fn generate(&self, view: &[T]) -> (r: Result<Option<T>, ModelError>)
        requires
            self.wf(),
        ensures
            r is Err <==> view@.len() < self.spec_order(),
            r is Err ==> r == Err::<Option<T>, ModelError>(ModelError::UndersizedWindow),
            match r {
                Ok(res) => {
                    let k = full_key(view@, self.spec_order());
                    &&& (!self.has_key(k) ==> res is None)
                    &&& (self.has_key(k) ==> {
                        let d = self.die_for(k);
                        &&& (d.total() == 0 ==> res is None)
                        &&& (d.total() > 0 ==> exists|p: int|
                            0 <= p < d.total() && res == Some(d.select(p)))
                    })
                },
                Err(_) => true,
            },
    {
        if view.len() < self.order {
            return Err(ModelError::UndersizedWindow);
        }
        let key = Self::to_full_key(self.order, view);
        match self.find_entry(&key) {
            Some(i) => {
                proof {
                    self.lemma_key_at(i as int);
                }
                Ok(self.probability_map[i].die.roll(None))
            },
            None => Ok(None),
        }
    }

    /// Draws the next element after a partially known window, using a random
    /// draw value.
    pub fn generate_from_partial(&self, view: &[Option<T>]) -> (r: Result<Option<T>, ModelError>)
        requires
            self.wf(),
        ensures
            r is Err <==> view@.len() < self.spec_order(),
            r is Err ==> r == Err::<Option<T>, ModelError>(ModelError::UndersizedWindow),
            match r {
                Ok(res) => {
                    let k = partial_key(view@, self.spec_order());
                    &&& (!self.has_key(k) ==> res is None)
                    &&& (self.has_key(k) ==> {
                        let d = self.die_for(k);
                        &&& (d.total() == 0 ==> res is None)
                        &&& (d.total() > 0 ==> exists|p: int|
                            0 <= p < d.total() && res == Some(d.select(p)))
                    })
                },
                Err(_) => true,
            },
    {
        if view.len() < self.order {
            return Err(ModelError::UndersizedWindow);
        }
        let key = Self::to_partial_key(self.order, view);
        match self.find_entry(&key) {
            Some(i) => {
                proof {
                    self.lemma_key_at(i as int);
                }
                Ok(self.probability_map[i].die.roll(None))
            },
            None => Ok(None),
        }
    }

    /// The probability of seeing `result` after a partially known window, as
    /// a reduced fraction. A context that was never trained, or an element
    /// the context never produced, has probability 0 (written 0/1).
    pub fn probability(&self, view: &[Option<T>], result: T) -> (r: Result<
        die::Probability,
        ModelError,
    >)
        requires
            self.wf(),
        ensures
            r is Err <==> view@.len() < self.spec_order(),
            r is Err ==> r == Err::<die::Probability, ModelError>(ModelError::UndersizedWindow),
            match r {
                Ok(p) => {
                    let k = partial_key(view@, self.spec_order());
                    &&& p.denominator > 0
                    &&& (!self.has_key(k) ==> p == (die::Probability {
                        numerator: 0,
                        denominator: 1,
                    }))
                    &&& (self.has_key(k) ==> {
                        let d = self.die_for(k);
                        &&& (!d.has_elem(result) ==> p == (die::Probability {
                            numerator: 0,
                            denominator: 1,
                        }))
                        &&& (d.has_elem(result) ==> {
                            let g = die::gcd_spec(d.weight_of(result) as nat, d.total() as nat);
                            &&& p.numerator == d.weight_of(result) as nat / g
                            &&& p.denominator == d.total() as nat / g
                        })
                    })
                },
                Err(_) => true,
            },
    {
        if view.len() < self.order {
            return Err(ModelError::UndersizedWindow);
        }
        let key = Self::to_partial_key(self.order, view);
        match self.find_entry(&key) {
            Some(i) => {
                proof {
                    self.lemma_key_at(i as int);
                }
                Ok(self.probability_map[i].die.get_probability(result))
            },
            None => Ok(die::Probability { numerator: 0, denominator: 1 }),
        }
    }

    /// An owned copy of a list of positions.
    fn copy_positions(v: &Vec<usize>) -> (r: Vec<usize>)
        ensures
            r@ == v@,
    {
        let mut out: Vec<usize> = Vec::new();
        let mut i: usize = 0;
        while i < v.len()
            invariant
                i <= v@.len(),
                out@.len() == i,
                forall|j: int| 0 <= j < i ==> out@[j] == v@[j],
            decreases v@.len() - i,
        {
            out.push(v[i]);
            i = i + 1;
        }
        proof {
            assert(out@ =~= v@);
        }
        out
    }

    /// The model's full state as plain data, ready for a host's
    /// serialisation back-end. `from_data` turns it back into a model of the
    /// same content.
    pub fn to_data(&self) -> (r: ModelData<T>)
        requires
            self.wf(),
        ensures
            represents(r, *self),
            data_valid(r),
    {
        let mut entries: Vec<(Vec<Option<T>>, Vec<die::WeightedSide<T>>)> = Vec::new();
        let mut i: usize = 0;
        while i < self.probability_map.len()
            invariant
                self.wf(),
                i <= self.n_keys(),
                entries@.len() == i,
                forall|x: int|
                    0 <= x < i ==> (#[trigger] entries@[x]).0@ == self.entries()[x].key@,
                forall|x: int|
                    0 <= x < i ==> crate::die::side_pairs((#[trigger] entries@[x]).1@)
                        == self.entries()[x].die.pairs(),
                forall|x: int|
                    0 <= x < i ==> crate::die::sum_weights((#[trigger] entries@[x]).1@)
                        <= u64::MAX,
                forall|x: int, a: int, b: int|
                    #![trigger entries@[x].1@[a], entries@[x].1@[b]]
                    0 <= x < i && 0 <= a < b < entries@[x].1@.len() ==> entries@[x].1@[a].element
                        != entries@[x].1@[b].element,
            decreases self.n_keys() - i,
        {
            let k = Self::copy_key(&self.probability_map[i].key);
            let s = self.probability_map[i].die.sides();
            entries.push((k, s));
            i = i + 1;
        }
        let opts = Self::copy_positions(&self.optional_elements);
        let r = ModelData { order: self.order, optional_elements: opts, entries };
        proof {
            assert forall|x: int|
                0 <= x < r.entries@.len() implies self.has_key((#[trigger] r.entries@[x]).0@)
                && self.die_for(r.entries@[x].0@).pairs() == crate::die::side_pairs(
                r.entries@[x].1@,
            ) by {
                self.lemma_key_at(x);
            }
            assert forall|k2: Seq<Option<T>>| #[trigger] self.has_key(k2) implies exists|x: int|
                0 <= x < r.entries@.len() && (#[trigger] r.entries@[x]).0@ == k2 by {
                let x = self.key_index(k2);
                assert(0 <= x < r.entries@.len() && r.entries@[x].0@ == k2);
            }
        }
        r
    }

    /// Rebuilds a model from plain data, or yields nothing when the data
    /// does not describe one.
    pub fn from_data(data: &ModelData<T>) -> (r: Option<Self>)
        ensures
            r is Some <==> data_valid(*data),
            match r {
                Some(m) => m.wf() && represents(*data, m),
                None => true,
            },
    {
        let mut i: usize = 0;
        while i < data.optional_elements.len()
            invariant
                i <= data.optional_elements@.len(),
                forall|a: int|
                    0 <= a < i ==> (#[trigger] data.optional_elements@[a]) < data.order,
                forall|a: int, b: int|
                    0 <= a < b < i ==> data.optional_elements@[a] != data.optional_elements@[b],
            decreases data.optional_elements@.len() - i,
        {
            if data.optional_elements[i] >= data.order {
                return None;
            }
            let mut j: usize = 0;
            while j < i
                invariant
                    j <= i < data.optional_elements@.len(),
                    forall|b: int|
                        0 <= b < j ==> data.optional_elements@[b] != data.optional_elements@[i as int],
                decreases i - j,
            {
                if data.optional_elements[j] == data.optional_elements[i] {
                    return None;
                }
                j = j + 1;
            }
            i = i + 1;
        }
        let mut map: Vec<ModelEntry<T>> = Vec::new();
        let mut e: usize = 0;
        while e < data.entries.len()
            invariant
                e <= data.entries@.len(),
                map@.len() == e,
                forall|x: int|
                    0 <= x < e ==> (#[trigger] map@[x]).key@ == data.entries@[x].0@,
                forall|x: int| 0 <= x < e ==> (#[trigger] map@[x]).key@.len() == data.order,
                forall|x: int| 0 <= x < e ==> (#[trigger] map@[x]).die.wf(),
                forall|x: int|
                    0 <= x < e ==> (#[trigger] map@[x]).die.pairs() == crate::die::side_pairs(
                        data.entries@[x].1@,
                    ),
                forall|x: int, y: int| 0 <= x < y < e ==> map@[x].key@ != map@[y].key@,
                forall|x: int, a: int, b: int|
                    #![trigger data.entries@[x].1@[a], data.entries@[x].1@[b]]
                    0 <= x < e && 0 <= a < b < data.entries@[x].1@.len()
                        ==> data.entries@[x].1@[a].element != data.entries@[x].1@[b].element,
                forall|x: int|
                    0 <= x < e ==> crate::die::sum_weights((#[trigger] data.entries@[x]).1@)
                        <= u64::MAX,
            decreases data.entries@.len() - e,
        {
            if data.entries[e].0.len() != data.order {
                return None;
            }
            let mut x: usize = 0;
            while x < e
                invariant
                    x <= e < data.entries@.len(),
                    map@.len() >= e,
                    forall|b: int|
                        0 <= b < e ==> (#[trigger] map@[b]).key@ == data.entries@[b].0@,
                    forall|b: int|
                        0 <= b < x ==> (#[trigger] map@[b]).key@ != data.entries@[e as int].0@,
                decreases e - x,
            {
                if Self::keys_equal(&map[x].key, &data.entries[e].0) {
                    return None;
                }
                x = x + 1;
            }
            let mut sides_copy: Vec<die::WeightedSide<T>> = Vec::new();
            let mut tot: u64 = 0;
            let mut a: usize = 0;
            while a < data.entries[e].1.len()
                invariant
                    e < data.entries@.len(),
                    a <= data.entries@[e as int].1@.len(),
                    sides_copy@.len() == a,
                    forall|p: int|
                        0 <= p < a ==> (#[trigger] sides_copy@[p]) == data.entries@[e as int].1@[p],
                    forall|p: int, q: int|
                        0 <= p < q < a ==> data.entries@[e as int].1@[p].element
                            != data.entries@[e as int].1@[q].element,
                    tot == crate::die::sum_weights(
                        data.entries@[e as int].1@.subrange(0, a as int),
                    ),
                decreases data.entries@[e as int].1@.len() - a,
            {
                let side = data.entries[e].1[a];
                let mut b: usize = 0;
                while b < a
                    invariant
                        e < data.entries@.len(),
                        b <= a < data.entries@[e as int].1@.len(),
                        side == data.entries@[e as int].1@[a as int],
                        forall|c: int|
                            0 <= c < b ==> data.entries@[e as int].1@[c].element
                                != data.entries@[e as int].1@[a as int].element,
                    decreases a - b,
                {
                    if data.entries[e].1[b].element.eq_elem(&side.element) {
                        return None;
                    }
                    b = b + 1;
                }
                proof {
                    assert(data.entries@[e as int].1@.subrange(0, a + 1).drop_last()
                        =~= data.entries@[e as int].1@.subrange(0, a as int));
                    assert(data.entries@[e as int].1@.subrange(0, a + 1).last()
                        == data.entries@[e as int].1@[a as int]);
                }
                match tot.checked_add(side.weight) {
                    Some(t2) => {
                        tot = t2;
                    },
                    None => {
                        proof {
                            crate::die::lemma_sum_weights_prefix(
                                data.entries@[e as int].1@,
                                a + 1,
                            );
                        }
                        return None;
                    },
                }
                sides_copy.push(side);
                a = a + 1;
            }
            proof {
                assert(data.entries@[e as int].1@.subrange(
                    0,
                    data.entries@[e as int].1@.len() as int,
                ) =~= data.entries@[e as int].1@);
                assert(sides_copy@ =~= data.entries@[e as int].1@);
            }
            let d = die::WeightedDie::new(sides_copy);
            let kc = Self::copy_key(&data.entries[e].0);
            let ghost prev_map = map@;
            map.push(ModelEntry { key: kc, die: d });
            proof {
                assert forall|x2: int, y2: int|
                    0 <= x2 < y2 < map@.len() implies map@[x2].key@ != map@[y2].key@ by {
                    if y2 < prev_map.len() {
                        assert(prev_map[x2].key@ != prev_map[y2].key@);
                    } else {
                        assert(prev_map[x2].key@ != data.entries@[e as int].0@);
                    }
                }
            }
            e = e + 1;
        }
        let opts = Self::copy_positions(&data.optional_elements);
        let m = MarkovChain {
            order: data.order,
            probability_map: map,
            optional_elements: opts,
        };
        proof {
            assert forall|x: int|
                0 <= x < data.entries@.len() implies (#[trigger] data.entries@[x]).0@.len()
                == data.order by {
                assert(map@[x].key@ == data.entries@[x].0@);
            }
            assert forall|x: int, y: int|
                0 <= x < y < data.entries@.len() implies data.entries@[x].0@
                != data.entries@[y].0@ by {
                assert(map@[x].key@ != map@[y].key@);
            }
            assert(data_valid(*data));
            assert forall|x: int|
                0 <= x < data.entries@.len() implies m.has_key((#[trigger] data.entries@[x]).0@)
                && m.die_for(data.entries@[x].0@).pairs() == crate::die::side_pairs(
                data.entries@[x].1@,
            ) by {
                m.lemma_key_at(x);
            }
            assert forall|k2: Seq<Option<T>>| #[trigger] m.has_key(k2) implies exists|x: int|
                0 <= x < data.entries@.len() && (#[trigger] data.entries@[x]).0@ == k2 by {
                let x = m.key_index(k2);
                assert(0 <= x < data.entries@.len() && data.entries@[x].0@ == k2);
            }
        }
        Some(m)
    }

    /// Whether this model and `other` hold the same content: the same
    /// order, the same set of optional positions, and for every context key
    /// the same weight on every element — whatever order entries or faces
    /// sit in.
    pub fn content_eq(&self, other: &Self) -> (r: bool)
        requires
            self.wf(),
            other.wf(),
        ensures
            r <==> models_content_eq(*self, *other),
    {
        if self.order != other.order {
            return false;
        }
        let mut i: usize = 0;
        while i < self.optional_elements.len()
            invariant
                i <= self.optionals().len(),
                forall|a: int|
                    0 <= a < i ==> other.optionals().contains(#[trigger] self.optionals()[a]),
            decreases self.optionals().len() - i,
        {
            if !Self::position_known(&other.optional_elements, self.optional_elements[i]) {
                proof {
                    assert(self.optionals().contains(self.optionals()[i as int]));
                }
                return false;
            }
            i = i + 1;
        }
        let mut i2: usize = 0;
        while i2 < other.optional_elements.len()
            invariant
                i2 <= other.optionals().len(),
                forall|a: int|
                    0 <= a < i2 ==> self.optionals().contains(#[trigger] other.optionals()[a]),
            decreases other.optionals().len() - i2,
        {
            if !Self::position_known(&self.optional_elements, other.optional_elements[i2]) {
                proof {
                    assert(other.optionals().contains(other.optionals()[i2 as int]));
                    assert(!self.optionals().contains(other.optionals()[i2 as int]));
                }
                return false;
            }
            i2 = i2 + 1;
        }
        let mut x: usize = 0;
        while x < self.probability_map.len()
            invariant
                self.wf(),
                other.wf(),
                x <= self.n_keys(),
                forall|a: int|
                    0 <= a < x ==> other.has_key((#[trigger] self.entries()[a]).key@),
                forall|a: int, el: T|
                    #![trigger self.entries()[a].die.weight_of(el)]
                    0 <= a < x ==> self.entries()[a].die.weight_of(el) == other.die_for(
                        self.entries()[a].key@,
                    ).weight_of(el),
            decreases self.n_keys() - x,
        {
            proof {
                self.lemma_key_at(x as int);
            }
            match other.find_entry(&self.probability_map[x].key) {
                None => {
                    return false;
                },
                Some(j) => {
                    proof {
                        other.lemma_key_at(j as int);
                    }
                    let ce = self.probability_map[x].die.content_eq(
                        &other.probability_map[j].die,
                    );
                    if !ce {
                        return false;
                    }
                },
            }
            x = x + 1;
        }
        let mut y: usize = 0;
        while y < other.probability_map.len()
            invariant
                self.wf(),
                other.wf(),
                y <= other.n_keys(),
                forall|b: int|
                    0 <= b < y ==> self.has_key((#[trigger] other.entries()[b]).key@),
            decreases other.n_keys() - y,
        {
            proof {
                other.lemma_key_at(y as int);
            }
            match self.find_entry(&other.probability_map[y].key) {
                None => {
                    return false;
                },
                Some(_) => {},
            }
            y = y + 1;
        }
        proof {
            assert forall|p: usize| #[trigger]
                self.optionals().contains(p) implies other.optionals().contains(p) by {
                let a = choose|a: int|
                    0 <= a < self.optionals().len() && self.optionals()[a] == p;
                assert(other.optionals().contains(self.optionals()[a]));
            }
            assert forall|p: usize| #[trigger]
                other.optionals().contains(p) implies self.optionals().contains(p) by {
                let a = choose|a: int|
                    0 <= a < other.optionals().len() && other.optionals()[a] == p;
                assert(self.optionals().contains(other.optionals()[a]));
            }
            assert forall|k: Seq<Option<T>>| #[trigger] self.has_key(k) == other.has_key(k) by {
                if self.has_key(k) {
                    let a = self.key_index(k);
                    self.lemma_key_at(a);
                    assert(other.has_key(self.entries()[a].key@));
                }
                if other.has_key(k) {
                    let b = other.key_index(k);
                    other.lemma_key_at(b);
                    assert(self.has_key(other.entries()[b].key@));
                }
            }
            assert forall|k: Seq<Option<T>>| #[trigger] self.has_key(k) implies forall|el: T|
                #[trigger] self.die_for(k).weight_of(el) == other.die_for(k).weight_of(el) by {
                let a = self.key_index(k);
                self.lemma_key_at(a);
            }
        }
        true
    }

    /// The position of the entry whose key holds the same slots as `key`.
    fn find_entry(&self, key: &Vec<Option<T>>) -> (r: Option<usize>)
        ensures
            match r {
                Some(i) => i < self.n_keys() && self.entries()[i as int].key@ == key@,
                None => !self.has_key(key@),
            },
    {
        let mut i: usize = 0;
        while i < self.probability_map.len()
            invariant
                i <= self.entries().len(),
                forall|j: int| 0 <= j < i ==> (#[trigger] self.entries()[j]).key@ != key@,
            decreases self.entries().len() - i,
        {
            if Self::keys_equal(&self.probability_map[i].key, key) {
                return Some(i);
            }
            i = i + 1;
        }
        None
    }
}

} // verus!
