//! The strategy that keeps every outcome once, with the number of ways that lead to it.

use vstd::prelude::*;
use vstd::multiset::*;
use vstd::std_specs::hash::*;
use std::collections::HashMap;
use std::collections::hash_map::RandomState;
use std::hash::BuildHasher;
use std::marker::PhantomData;
use rand::Rng;
use crate::bags::{
    bag_bind, bag_map, copies, lemma_bind_agree, lemma_copies, lemma_scale, lemma_scale_add,
    lemma_scale_copies, scale,
};
use crate::inner::{faithful_clone, Inner};
use crate::lifted::{accepts_all, is_row, is_row_bag};
use crate::random_variable_ranges::{RandomVariableRange, Whole};
use crate::random_variables::RandomVariable;
use crate::multiples::{
    common_multiple, is_least_common_multiple, lcm_of, least_common_multiple, members,
};
use crate::weights::Weight;
use crate::weighted::{
    add_weight, bag, entries, index_in, is_listing, lemma_bag_count, lemma_bind_listing,
    lemma_listing_bag, lemma_weighted_sum_prefix, listing_bag, mass, weighted_sum,
};

verus! {

broadcast use {vstd::multiset::group_multiset_axioms, vstd::std_specs::hash::group_hash_axioms};

/// Produces all possible outputs of the random process, each once, stored in a hash map
/// that gives every output the number of ways in which the process reaches it.
#[derive(Debug, Default, Eq, Hash, PartialEq)]
pub struct Counter<S: BuildHasher + Default = RandomState, N: Weight = usize> {
    count_phantom: PhantomData<N>,
    hasher_phantom: PhantomData<S>,
}

impl<S: BuildHasher + Default, N: Weight> Clone for Counter<S, N> {
    fn clone(&self) -> (c: Self) {
        Counter { count_phantom: PhantomData, hasher_phantom: PhantomData }
    }
}

impl<S: BuildHasher + Default, N: Weight> Copy for Counter<S, N> {

}

/// A weighted map as the strategy keeps it: finitely many keys, no key of weight zero,
/// and a total weight that is itself a weight.
pub open spec fn well_formed<K, N: Weight>(m: Map<K, N>) -> bool {
    &&& m.dom().finite()
    &&& forall|k: K| m.contains_key(k) ==> (#[trigger] m[k]).amount() > 0
    &&& mass(m) <= N::limit()
}

/// The prefix of a listing weighs no more than the whole.
pub proof fn lemma_listing_prefix<K, N: Weight>(es: Seq<(K, N)>, j: int)
    requires
        0 <= j <= es.len(),
    ensures
        listing_bag(es.take(j)).len() <= listing_bag(es).len(),
        j < es.len() ==> listing_bag(es.take(j + 1)) == listing_bag(es.take(j)).add(
            copies(es[j].0, es[j].1.amount()),
        ),
    decreases es.len() - j,
{
    if j < es.len() {
        assert(es.take(j + 1).drop_last() =~= es.take(j));
        assert(es.take(j + 1).last() == es[j]);
        lemma_listing_prefix(es, j + 1);
    } else {
        assert(es.take(j) =~= es);
    }
}

/// A child map seen as a plain map, beside the weight of the key it came from.
pub open spec fn views<B, N: Weight, S>(children: Seq<(HashMap<B, N, S>, N)>) -> Seq<
    (Map<B, N>, N),
> {
    Seq::new(children.len(), |i: int| (children[i].0@, children[i].1))
}

/// `h` gives, for every key of `m`, a value that `func` may return for it.
pub open spec fn chosen_by<A, B, N: Weight, F: Fn(A) -> B>(
    func: F,
    m: Map<A, N>,
    h: spec_fn(A) -> B,
) -> bool {
    forall|a: A| m.contains_key(a) ==> call_ensures(func, (a,), #[trigger] h(a))
}

/// `out` is what mapping `func` over `f` may give: a well-formed weighted map whose bag
/// is the image of the bag of `f` under a choice of results of `func`.
pub open spec fn is_image<A, B, N: Weight, F: Fn(A) -> B>(
    func: F,
    f: Map<A, N>,
    out: Map<B, N>,
) -> bool {
    &&& well_formed(out)
    &&& exists|h: spec_fn(A) -> B| #[trigger] chosen_by(func, f, h) && bag(out) == bag_map(bag(f), h)
}

/// `out` is what mapping `func` over `f` beside `space` may give: a well-formed weighted
/// map whose bag holds, for every member of the bag of `f`, a row of `func` for it.
pub open spec fn is_product<A, R, B, N: Weight, F: Fn(A, R) -> B>(
    func: F,
    f: Map<A, N>,
    space: Seq<R>,
    out: Map<B, N>,
) -> bool {
    &&& well_formed(out)
    &&& exists|k: spec_fn(A) -> Multiset<B>| #[trigger]
        rows_by(func, f, space, k) && bag(out) == bag_bind(bag(f), k)
}

/// `out` is what flattening the maps that `func` gives for the keys of `f` may give.
pub open spec fn is_flat_image<A, B, N: Weight, S, F: FnMut(A) -> HashMap<B, N, S>>(
    func: F,
    f: Map<A, N>,
    out: Map<B, N>,
) -> bool {
    &&& well_formed(out)
    &&& exists|es: Seq<(A, N)>, kids: Seq<(Map<B, N>, N)>|
        is_listing(es, f) && #[trigger] yields(func, es, kids) && bag(out) == flattened(kids)
}

/// As many copies of one value as a weight says are that value's bag, scaled.
pub proof fn lemma_copies_scale<B>(b: B, c: nat)
    ensures
        copies(b, c) =~= scale(Multiset::singleton(b), c),
{
    lemma_copies(b, c);
    lemma_scale(Multiset::singleton(b), c);
    assert forall|x: B| copies(b, c).count(x) == scale(Multiset::singleton(b), c).count(x) by {
        if x != b {
            assert(Multiset::singleton(b).count(x) == 0);
            assert(c * 0 == 0);
        } else {
            assert(c * 1 == c);
        }
    }
}

/// `k` gives, for every key of `m`, the bag of a row of `func` for it over `space`.
pub open spec fn rows_by<A, R, B, N: Weight, F: Fn(A, R) -> B>(
    func: F,
    m: Map<A, N>,
    space: Seq<R>,
    k: spec_fn(A) -> Multiset<B>,
) -> bool {
    forall|a: A| m.contains_key(a) ==> is_row_bag(func, a, space, #[trigger] k(a))
}

/// The weight given out so far, and one more unit of a key's weight, stay within what
/// the whole product weighs.
proof fn lemma_spread_step(len: nat, before: nat, c: nat, j: nat, whole: nat)
    requires
        j < len,
        before + c <= whole,
    ensures
        len * before + c * j + c <= len * whole,
        len * before + c * len == len * (before + c),
        c * (j + 1) == c * j + c,
{
    assert(c * j + c <= c * len) by (nonlinear_arith)
        requires
            j < len,
    ;
    assert(len * before + c * len == len * (before + c)) by (nonlinear_arith);
    assert(len * (before + c) <= len * whole) by (nonlinear_arith)
        requires
            before + c <= whole,
    ;
    assert(c * (j + 1) == c * j + c) by (nonlinear_arith);
}

/// `func` may return a hash map that holds `kid` for `a`.
pub open spec fn may_yield<A, B, N: Weight, S, F: FnMut(A) -> HashMap<B, N, S>>(
    func: F,
    a: A,
    kid: Map<B, N>,
) -> bool {
    exists|c: HashMap<B, N, S>| #[trigger] call_ensures(func, (a,), c) && c@ == kid
}

/// `kids` holds, for each entry of `es` in turn, a weighted map that `func` may return
/// for the entry's key, beside the entry's weight.
pub open spec fn yields<A, B, N: Weight, S, F: FnMut(A) -> HashMap<B, N, S>>(
    func: F,
    es: Seq<(A, N)>,
    kids: Seq<(Map<B, N>, N)>,
) -> bool {
    &&& kids.len() == es.len()
    &&& forall|i: int|
        0 <= i < es.len() ==> (#[trigger] kids[i]).1 == es[i].1 && may_yield(
            func,
            es[i].0,
            kids[i].0,
        )
}

/// The total weights of the child maps in `kids`.
pub open spec fn child_masses<B, N: Weight>(kids: Seq<(Map<B, N>, N)>) -> Set<nat> {
    Set::new(|n: nat| exists|i: int| 0 <= i < kids.len() && mass((#[trigger] kids[i]).0) == n)
}

/// The sum of the outer weights in `kids`.
pub open spec fn outer_total<B, N: Weight>(kids: Seq<(Map<B, N>, N)>) -> nat
    decreases kids.len(),
{
    if kids.len() == 0 {
        0
    } else {
        outer_total(kids.drop_last()) + kids.last().1.amount()
    }
}

/// The sum of the child maps' bags, each taken `m / s` times for each unit of its outer
/// weight, where `s` is its total weight.
pub open spec fn blend<B, N: Weight>(kids: Seq<(Map<B, N>, N)>, m: nat) -> Multiset<B>
    decreases kids.len(),
{
    if kids.len() == 0 {
        Multiset::empty()
    } else {
        blend(kids.drop_last(), m).add(
            scale(bag(kids.last().0), (m / mass(kids.last().0)) * kids.last().1.amount()),
        )
    }
}

/// Some child map in `kids` holds nothing.
pub open spec fn has_empty_child<B, N: Weight>(kids: Seq<(Map<B, N>, N)>) -> bool {
    exists|i: int| 0 <= i < kids.len() && mass((#[trigger] kids[i]).0) == 0
}

/// The bag that flattening `kids` gives: nothing where a child map holds nothing,
/// else the child maps blended on the least common multiple of their total weights.
pub open spec fn flattened<B, N: Weight>(kids: Seq<(Map<B, N>, N)>) -> Multiset<B> {
    if has_empty_child(kids) {
        Multiset::empty()
    } else {
        blend(kids, lcm_of(child_masses(kids)))
    }
}

/// The total weight that flattening `kids` gives is itself a weight: a common multiple
/// of the child maps' total weights, times the sum of the outer weights, is one.
pub open spec fn flatten_fits<B, N: Weight>(kids: Seq<(Map<B, N>, N)>) -> bool {
    !has_empty_child(kids) ==> exists|c: nat| #[trigger]
        common_multiple(c, child_masses(kids)) && c * outer_total(kids) <= N::limit()
}

/// The outer weights of a prefix sum to no more than those of the whole.
pub proof fn lemma_outer_prefix<B, N: Weight>(kids: Seq<(Map<B, N>, N)>, i: int)
    requires
        0 <= i <= kids.len(),
    ensures
        outer_total(kids.take(i)) <= outer_total(kids),
        i < kids.len() ==> outer_total(kids.take(i + 1)) == outer_total(kids.take(i))
            + kids[i].1.amount(),
    decreases kids.len() - i,
{
    if i < kids.len() {
        assert(kids.take(i + 1).drop_last() =~= kids.take(i));
        assert(kids.take(i + 1).last() == kids[i]);
        lemma_outer_prefix(kids, i + 1);
    } else {
        assert(kids.take(i) =~= kids);
    }
}

/// Blending one more child map adds its scaled bag.
pub proof fn lemma_blend_prefix<B, N: Weight>(kids: Seq<(Map<B, N>, N)>, m: nat, i: int)
    requires
        0 <= i < kids.len(),
    ensures
        blend(kids.take(i + 1), m) == blend(kids.take(i), m).add(
            scale(bag(kids[i].0), (m / mass(kids[i].0)) * kids[i].1.amount()),
        ),
{
    assert(kids.take(i + 1).drop_last() =~= kids.take(i));
    assert(kids.take(i + 1).last() == kids[i]);
}

/// A multiple of `sum` holds `sum` a whole number of times, and at least once.
proof fn lemma_share(m: nat, sum: nat)
    requires
        sum > 0,
        m > 0,
        m % sum == 0,
    ensures
        (m / sum) * sum == m,
        m / sum >= 1,
{
    vstd::arithmetic::div_mod::lemma_fundamental_div_mod(m as int, sum as int);
    let q = m as int / sum as int;
    assert(q * sum == m) by (nonlinear_arith)
        requires
            m == sum * q + 0,
    ;
    assert(q >= 1) by (nonlinear_arith)
        requires
            q * sum == m,
            m > 0,
            sum > 0,
    ;
}

/// A child that is scaled up to `m` weighs `m` times its outer weight, and the
/// children up to it stay within what all of them weigh together.
proof fn lemma_flatten_step(m: nat, scaling: nat, sum: nat, outer: nat, before: nat, whole: nat)
    requires
        scaling * sum == m,
        before + outer <= whole,
    ensures
        scaling * outer * sum == m * outer,
        m * before + scaling * outer * sum == m * (before + outer),
        m * (before + outer) <= m * whole,
{
    assert(scaling * outer * sum == m * outer) by (nonlinear_arith)
        requires
            scaling * sum == m,
    ;
    assert(m * before + m * outer == m * (before + outer)) by (nonlinear_arith);
    assert(m * (before + outer) <= m * whole) by (nonlinear_arith)
        requires
            before + outer <= whole,
    ;
}

impl<S: BuildHasher + Default, N: Weight> Counter<S, N> {
    /// The sum of all weights of `m`.
    pub fn total<K: Inner>(m: &HashMap<K, N, S>) -> (t: N)
        requires
            obeys_key_model::<K>(),
            builds_valid_hashers::<S>(),
            faithful_clone::<K>(),
            mass(m@) <= N::limit(),
        ensures
            t.amount() == mass(m@),
    {
        let es = entries(m);
        proof {
            lemma_listing_bag(es@, m@);
            assert(es@.take(0) =~= Seq::empty());
        }
        let mut t: N = N::zero();
        let mut j: usize = 0;
        while j < es.len()
            invariant
                j <= es@.len(),
                t.amount() == listing_bag(es@.take(j as int)).len(),
                listing_bag(es@).len() <= N::limit(),
            decreases es@.len() - j,
        {
            proof {
                lemma_listing_prefix(es@, j as int);
                lemma_listing_prefix(es@, j + 1);
                lemma_copies(es@[j as int].0, es@[j as int].1.amount());
            }
            t = t.plus(es[j].1);
            j += 1;
        }
        proof {
            assert(es@.take(j as int) =~= es@);
        }
        t
    }

    /// Applies `func` to every key and gives each result the weights of the keys that
    /// led to it, added up.
    pub fn fmap<A: Inner, B: Inner, F: Fn(A) -> B>(f: HashMap<A, N, S>, func: F) -> (out:
        HashMap<B, N, S>)
        requires
            obeys_key_model::<A>(),
            obeys_key_model::<B>(),
            builds_valid_hashers::<S>(),
            faithful_clone::<A>(),
            well_formed(f@),
            forall|a: A| f@.contains_key(a) ==> call_requires(func, (a,)),
        ensures
            is_image(func, f@, out@),
    {
        let es = entries(&f);
        let mut out: HashMap<B, N, S> = HashMap::default();
        out.reserve(f.len());
        let ghost bs: Seq<B> = Seq::empty();
        let ghost rows: Seq<Multiset<B>> = Seq::empty();
        proof {
            lemma_listing_bag(es@, f@);
            assert forall|k: B| bag(out@).count(k) == 0 by {
                lemma_bag_count(out@, k);
            }
            assert(bag(out@) =~= Multiset::empty());
            assert(es@.take(0) =~= Seq::empty());
        }
        let mut i: usize = 0;
        while i < es.len()
            invariant
                obeys_key_model::<B>(),
                builds_valid_hashers::<S>(),
                faithful_clone::<A>(),
                is_listing(es@, f@),
                listing_bag(es@) == bag(f@),
                well_formed(f@),
                forall|a: A| f@.contains_key(a) ==> call_requires(func, (a,)),
                i <= es@.len(),
                bs.len() == i,
                rows.len() == i,
                forall|j: int| 0 <= j < i ==> call_ensures(func, (es@[j].0,), #[trigger] bs[j]),
                forall|j: int| 0 <= j < i ==> #[trigger] rows[j] == Multiset::singleton(bs[j]),
                out@.dom().finite(),
                forall|k: B| out@.contains_key(k) ==> (#[trigger] out@[k]).amount() > 0,
                bag(out@) == weighted_sum(es@.take(i as int), rows),
                mass(out@) == listing_bag(es@.take(i as int)).len(),
            decreases es@.len() - i,
        {
            let a = es[i].0.clone();
            let c: N = es[i].1;
            proof {
                assert(cloned(es@[i as int].0, a));
                assert(f@.contains_key(es@[i as int].0) && f@[es@[i as int].0] == c);
                lemma_listing_prefix(es@, i as int);
                lemma_listing_prefix(es@, i + 1);
                lemma_copies(es@[i as int].0, c.amount());
            }
            let b = func(a);
            proof {
                let ghost before = rows;
                bs = bs.push(b);
                rows = rows.push(Multiset::singleton(b));
                assert(rows.take(i as int) =~= before);
                assert(rows.take(i + 1) =~= rows);
                lemma_weighted_sum_prefix(es@, rows, i as int);
                lemma_copies_scale(b, c.amount());
                lemma_copies(b, c.amount());
            }
            add_weight(&mut out, b, c);
            i += 1;
        }
        proof {
            assert(es@.take(i as int) =~= es@);
            let h = |a: A| bs[index_in(es@, a)];
            let k = |a: A| Multiset::singleton(h(a));
            assert forall|j: int| 0 <= j < es@.len() implies index_in(es@, (#[trigger] es@[j]).0)
                == j by {
                let t = index_in(es@, es@[j].0);
                assert(0 <= t < es@.len() && es@[t].0 == es@[j].0);
                if t < j {
                    assert(es@[t].0 != es@[j].0);
                } else if j < t {
                    assert(es@[j].0 != es@[t].0);
                }
            }
            assert forall|j: int| 0 <= j < es@.len() implies k((#[trigger] es@[j]).0)
                == rows[j] by {
                assert(index_in(es@, es@[j].0) == j);
            }
            lemma_bind_listing(es@, rows, k);
            assert(chosen_by(func, f@, h)) by {
                assert forall|a: A| f@.contains_key(a) implies call_ensures(
                    func,
                    (a,),
                    #[trigger] h(a),
                ) by {
                    let j = choose|j: int| 0 <= j < es@.len() && #[trigger] es@[j].0 == a;
                    assert(index_in(es@, es@[j].0) == j);
                }
            }
            lemma_bind_agree(bag(f@), k, |a: A| Multiset::singleton(h(a)));
            assert(bag(out@) == bag_map(bag(f@), h));
        }
        out
    }

    /// Applies `func` to every key beside every value of `range`, and gives each result
    /// the weights of the keys that led to it, added up over all values of the range.
    /// The generator is not used.
    pub fn fmap_rand_range<
        A: Inner,
        B: Inner,
        R: RandomVariable,
        Rg: RandomVariableRange<R>,
        G: Rng,
        F: Fn(A, R) -> B,
    >(f: HashMap<A, N, S>, range: Rg, rng: &mut G, func: F) -> (out: HashMap<B, N, S>)
        requires
            obeys_key_model::<A>(),
            obeys_key_model::<B>(),
            builds_valid_hashers::<S>(),
            faithful_clone::<A>(),
            well_formed(f@),
            accepts_all(func, f@.dom(), range.sample_space()),
            mass(f@) > 0 ==> range.sample_space().len() <= usize::MAX,
            mass(f@) * range.sample_space().len() <= N::limit(),
        ensures
            *final(rng) == *old(rng),
            is_product(func, f@, range.sample_space(), out@),
    {
        let es = entries(&f);
        let mut out: HashMap<B, N, S> = HashMap::default();
        out.reserve(f.len());
        let ghost space = range.sample_space();
        let ghost rows: Seq<Multiset<B>> = Seq::empty();
        proof {
            lemma_listing_bag(es@, f@);
            assert forall|k: B| bag(out@).count(k) == 0 by {
                lemma_bag_count(out@, k);
            }
            assert(bag(out@) =~= Multiset::empty());
            assert(es@.take(0) =~= Seq::empty());
            assert(space.len() * 0 == 0);
        }
        let mut i: usize = 0;
        while i < es.len()
            invariant
                obeys_key_model::<B>(),
                builds_valid_hashers::<S>(),
                faithful_clone::<A>(),
                is_listing(es@, f@),
                listing_bag(es@) == bag(f@),
                well_formed(f@),
                space == range.sample_space(),
                accepts_all(func, f@.dom(), space),
                mass(f@) > 0 ==> space.len() <= usize::MAX,
                mass(f@) * space.len() <= N::limit(),
                i <= es@.len(),
                rows.len() == i,
                forall|t: int| 0 <= t < i ==> is_row_bag(func, es@[t].0, space, #[trigger] rows[t]),
                out@.dom().finite(),
                forall|k: B| out@.contains_key(k) ==> (#[trigger] out@[k]).amount() > 0,
                bag(out@) == weighted_sum(es@.take(i as int), rows),
                mass(out@) == space.len() * listing_bag(es@.take(i as int)).len(),
            decreases es@.len() - i,
        {
            let c: N = es[i].1;
            let ghost before = listing_bag(es@.take(i as int)).len();
            let ghost done = bag(out@);
            proof {
                assert(f@.contains_key(es@[i as int].0) && f@[es@[i as int].0] == c);
                assert(f@.dom().contains(es@[i as int].0));
                lemma_listing_prefix(es@, i as int);
                lemma_listing_prefix(es@, i + 1);
                lemma_copies(es@[i as int].0, c.amount());
                assert(mass(f@) >= c.amount());
                assert(c.amount() > 0);
                assert(c.amount() * 0 == 0);
                assert(scale(Multiset::<B>::empty(), c.amount()) =~= Multiset::empty()) by {
                    lemma_scale(Multiset::<B>::empty(), c.amount());
                }
                assert(done.add(Multiset::empty()) =~= done);
                assert(Seq::<B>::empty().to_multiset() =~= Multiset::empty()) by {
                    vstd::seq_lib::to_multiset_len(Seq::<B>::empty());
                    lemma_multiset_empty_len(Seq::<B>::empty().to_multiset());
                }
            }
            let n: usize = range.sample_space_len().unwrap();
            let ghost bs: Seq<B> = Seq::empty();
            let mut j: usize = 0;
            while j < n
                invariant
                    obeys_key_model::<B>(),
                    builds_valid_hashers::<S>(),
                    faithful_clone::<A>(),
                    i < es@.len(),
                    c == es@[i as int].1,
                    c.amount() > 0,
                    f@.dom().contains(es@[i as int].0),
                    space == range.sample_space(),
                    accepts_all(func, f@.dom(), space),
                    n == space.len(),
                    j <= n,
                    bs.len() == j,
                    forall|t: int|
                        0 <= t < j ==> call_ensures(
                            func,
                            (es@[i as int].0, space[t]),
                            #[trigger] bs[t],
                        ),
                    before + c.amount() <= mass(f@),
                    mass(f@) * space.len() <= N::limit(),
                    out@.dom().finite(),
                    forall|k: B| out@.contains_key(k) ==> (#[trigger] out@[k]).amount() > 0,
                    bag(out@) == done.add(scale(bs.to_multiset(), c.amount())),
                    mass(out@) == space.len() * before + c.amount() * j,
                decreases n - j,
            {
                let a = es[i].0.clone();
                proof {
                    assert(cloned(es@[i as int].0, a));
                    lemma_spread_step(space.len(), before, c.amount(), j as nat, mass(f@));
                    assert(space.len() * mass(f@) == mass(f@) * space.len()) by (nonlinear_arith);
                }
                let r = range.sample_space_at(j);
                let b = func(a, r);
                add_weight(&mut out, b, c);
                proof {
                    let ghost earlier = bs;
                    bs = bs.push(b);
                    vstd::seq_lib::to_multiset_build(earlier, b);
                    lemma_scale_add(earlier.to_multiset(), Multiset::singleton(b), c.amount());
                    lemma_copies_scale(b, c.amount());
                    lemma_copies(b, c.amount());
                    assert(bs.to_multiset() =~= earlier.to_multiset().add(Multiset::singleton(b)));
                    assert(bag(out@) =~= done.add(scale(bs.to_multiset(), c.amount())));
                }
                j += 1;
            }
            proof {
                let ghost earlier = rows;
                rows = rows.push(bs.to_multiset());
                assert(rows.take(i as int) =~= earlier);
                assert(rows.take(i + 1) =~= rows);
                lemma_weighted_sum_prefix(es@, rows, i as int);
                assert(is_row(func, es@[i as int].0, space, bs));
                assert(space.len() * before + c.amount() * space.len() == space.len() * (before
                    + c.amount()))
                    by (nonlinear_arith);
            }
            i += 1;
        }
        proof {
            assert(es@.take(i as int) =~= es@);
            let k = |a: A| rows[index_in(es@, a)];
            assert forall|t: int| 0 <= t < es@.len() implies index_in(es@, (#[trigger] es@[t]).0)
                == t by {
                let u = index_in(es@, es@[t].0);
                assert(0 <= u < es@.len() && es@[u].0 == es@[t].0);
                if u < t {
                    assert(es@[u].0 != es@[t].0);
                } else if t < u {
                    assert(es@[t].0 != es@[u].0);
                }
            }
            assert forall|t: int| 0 <= t < es@.len() implies k((#[trigger] es@[t]).0)
                == rows[t] by {
                assert(index_in(es@, es@[t].0) == t);
            }
            lemma_bind_listing(es@, rows, k);
            assert(rows_by(func, f@, space, k)) by {
                assert forall|a: A| f@.contains_key(a) implies is_row_bag(
                    func,
                    a,
                    space,
                    #[trigger] k(a),
                ) by {
                    let t = choose|t: int| 0 <= t < es@.len() && #[trigger] es@[t].0 == a;
                    assert(index_in(es@, es@[t].0) == t);
                }
            }
            assert(space.len() * mass(f@) == mass(f@) * space.len()) by (nonlinear_arith);
        }
        out
    }

    /// Applies `func` to every key beside every possible value of `R`, and gives each
    /// result the weights of the keys that led to it, added up over the sample space.
    /// The generator is not used.
    pub fn fmap_rand<A: Inner, B: Inner, R: RandomVariable, G: Rng, F: Fn(A, R) -> B>(
        f: HashMap<A, N, S>,
        rng: &mut G,
        func: F,
    ) -> (out: HashMap<B, N, S>)
        requires
            obeys_key_model::<A>(),
            obeys_key_model::<B>(),
            builds_valid_hashers::<S>(),
            faithful_clone::<A>(),
            well_formed(f@),
            accepts_all(func, f@.dom(), R::sample_space()),
            mass(f@) > 0 ==> R::sample_space().len() <= usize::MAX,
            mass(f@) * R::sample_space().len() <= N::limit(),
        ensures
            *final(rng) == *old(rng),
            is_product(func, f@, R::sample_space(), out@),
    {
        Self::fmap_rand_range(f, Whole::<R>::new(), rng, func)
    }

    /// Adds to `out` every entry of `child`, its weight multiplied by `scaling` and by
    /// `outer`.
    pub fn pour<B: Inner>(
        out: &mut HashMap<B, N, S>,
        child: &HashMap<B, N, S>,
        scaling: N,
        outer: N,
    )
        requires
            obeys_key_model::<B>(),
            builds_valid_hashers::<S>(),
            faithful_clone::<B>(),
            well_formed(old(out)@),
            well_formed(child@),
            scaling.amount() > 0,
            outer.amount() > 0,
            mass(old(out)@) + scaling.amount() * outer.amount() * mass(child@) <= N::limit(),
        ensures
            well_formed(final(out)@),
            bag(final(out)@) == bag(old(out)@).add(
                scale(bag(child@), scaling.amount() * outer.amount()),
            ),
            mass(final(out)@) == mass(old(out)@) + scaling.amount() * outer.amount() * mass(
                child@,
            ),
    {
        let es = entries(child);
        let ghost start = out@;
        let ghost w = scaling.amount() * outer.amount();
        let ghost sum = mass(child@);
        proof {
            lemma_listing_bag(es@, child@);
            assert(es@.take(0) =~= Seq::empty());
            assert(scale(Multiset::<B>::empty(), w) =~= Multiset::empty()) by {
                lemma_scale(Multiset::<B>::empty(), w);
            }
            assert(bag(start).add(Multiset::empty()) =~= bag(start));
            assert(w * 0 == 0);
        }
        let mut j: usize = 0;
        while j < es.len()
            invariant
                obeys_key_model::<B>(),
                builds_valid_hashers::<S>(),
                faithful_clone::<B>(),
                j <= es@.len(),
                is_listing(es@, child@),
                well_formed(child@),
                listing_bag(es@) == bag(child@),
                sum == mass(child@),
                w == scaling.amount() * outer.amount(),
                scaling.amount() > 0,
                outer.amount() > 0,
                out@.dom().finite(),
                forall|k: B| out@.contains_key(k) ==> (#[trigger] out@[k]).amount() > 0,
                bag(out@) == bag(start).add(scale(listing_bag(es@.take(j as int)), w)),
                mass(out@) == mass(start) + w * listing_bag(es@.take(j as int)).len(),
                mass(start) + w * sum <= N::limit(),
            decreases es@.len() - j,
        {
            let key = es[j].0.clone();
            let inner: N = es[j].1;
            let ghost done = listing_bag(es@.take(j as int));
            proof {
                assert(cloned(es@[j as int].0, key));
                assert(child@.contains_key(es@[j as int].0) && child@[es@[j as int].0] == inner);
                assert(inner.amount() > 0);
                lemma_listing_prefix(es@, j as int);
                lemma_listing_prefix(es@, j + 1);
                lemma_copies(key, inner.amount());
                lemma_pour_step(
                    scaling.amount(),
                    outer.amount(),
                    inner.amount(),
                    done.len(),
                    sum,
                    mass(start),
                );
            }
            let amount: N = scaling.times(inner).times(outer);
            add_weight(out, key, amount);
            proof {
                let next = listing_bag(es@.take(j + 1));
                assert(next == done.add(copies(key, inner.amount())));
                lemma_scale_add(done, copies(key, inner.amount()), w);
                lemma_scale_copies(key, inner.amount(), w);
                assert(bag(out@) =~= bag(start).add(scale(next, w)));
                lemma_copies(key, amount.amount());
                assert(next.len() == done.len() + inner.amount());
                assert(mass(out@) == mass(start) + w * done.len() + amount.amount());
            }
            j += 1;
        }
        proof {
            assert(es@.take(j as int) =~= es@);
        }
    }

    /// Flattens weighted child maps into one, each beside the weight of the key it came
    /// from: every child is scaled up to the least common multiple of the children's
    /// total weights, so that each counts by its outer weight alone. Where a child holds
    /// nothing, so does the result.
    pub fn flatten<B: Inner>(children: Vec<(HashMap<B, N, S>, N)>) -> (out: HashMap<
        B,
        N,
        S,
    >)
        requires
            obeys_key_model::<B>(),
            builds_valid_hashers::<S>(),
            faithful_clone::<B>(),
            forall|i: int|
                0 <= i < children@.len() ==> well_formed((#[trigger] children@[i]).0@)
                    && children@[i].1.amount() > 0,
            flatten_fits(views(children@)),
        ensures
            well_formed(out@),
            bag(out@) == flattened(views(children@)),
    {
        let ghost kids = views(children@);
        let mut out: HashMap<B, N, S> = HashMap::default();
        out.reserve(children.len());
        proof {
            assert forall|k: B| bag(out@).count(k) == 0 by {
                lemma_bag_count(out@, k);
            }
            assert(bag(out@) =~= Multiset::empty());
        }
        let mut sums: Vec<N> = Vec::new();
        let mut i: usize = 0;
        while i < children.len()
            invariant
                obeys_key_model::<B>(),
                builds_valid_hashers::<S>(),
                faithful_clone::<B>(),
                forall|i: int|
                    0 <= i < children@.len() ==> well_formed((#[trigger] children@[i]).0@)
                        && children@[i].1.amount() > 0,
                kids == views(children@),
                i <= children@.len(),
                sums@.len() == i,
                forall|j: int|
                    0 <= j < i ==> (#[trigger] sums@[j]).amount() == mass(kids[j].0) && sums@[j].amount()
                        > 0,
                well_formed(out@),
                bag(out@) == Multiset::<B>::empty(),
            decreases children@.len() - i,
        {
            assert(well_formed(children@[i as int].0@));
            let t: N = Self::total(&children[i].0);
            if t.is_zero() {
                proof {
                    assert(mass(kids[i as int].0) == 0);
                    assert(has_empty_child(kids));
                }
                return out;
            }
            sums.push(t);
            i += 1;
        }
        proof {
            assert(!has_empty_child(kids)) by {
                if has_empty_child(kids) {
                    let j = choose|j: int| 0 <= j < kids.len() && mass((#[trigger] kids[j]).0) == 0;
                    assert(sums@[j].amount() == mass(kids[j].0));
                }
            }
        }
        if sums.len() == 0 {
            return out;
        }
        let ghost c = choose|c: nat| #[trigger]
            common_multiple(c, child_masses(kids)) && c * outer_total(kids) <= N::limit();
        proof {
            assert(members(sums@) =~= child_masses(kids)) by {
                assert forall|n: nat| members(sums@).contains(n) implies child_masses(
                    kids,
                ).contains(n) by {
                    let j = choose|j: int| 0 <= j < sums@.len() && (#[trigger] sums@[j]).amount() == n;
                    assert(mass(kids[j].0) == n);
                }
                assert forall|n: nat| child_masses(kids).contains(n) implies members(
                    sums@,
                ).contains(n) by {
                    let j = choose|j: int| 0 <= j < kids.len() && mass((#[trigger] kids[j]).0) == n;
                    assert(sums@[j].amount() == n);
                }
            }
            assert(kids.last() == kids[kids.len() - 1]);
            assert(outer_total(kids) >= 1);
            assert(c <= N::limit()) by (nonlinear_arith)
                requires
                    c * outer_total(kids) <= N::limit(),
                    outer_total(kids) >= 1,
            ;
        }
        let m: N = least_common_multiple(&sums);
        proof {
            assert(m.amount() <= c);
            assert(m.amount() * outer_total(kids) <= N::limit()) by (nonlinear_arith)
                requires
                    m.amount() <= c,
                    c * outer_total(kids) <= N::limit(),
            ;
            assert(kids.take(0) =~= Seq::empty());
            assert(m.amount() * 0 == 0);
        }
        let mut i: usize = 0;
        while i < children.len()
            invariant
                obeys_key_model::<B>(),
                builds_valid_hashers::<S>(),
                faithful_clone::<B>(),
                forall|i: int|
                    0 <= i < children@.len() ==> well_formed((#[trigger] children@[i]).0@)
                        && children@[i].1.amount() > 0,
                kids == views(children@),
                i <= children@.len(),
                sums@.len() == children@.len(),
                forall|j: int|
                    0 <= j < sums@.len() ==> (#[trigger] sums@[j]).amount() == mass(kids[j].0)
                        && sums@[j].amount() > 0,
                is_least_common_multiple(m.amount(), members(sums@)),
                m.amount() * outer_total(kids) <= N::limit(),
                well_formed(out@),
                bag(out@) == blend(kids.take(i as int), m.amount()),
                mass(out@) == m.amount() * outer_total(kids.take(i as int)),
            decreases children@.len() - i,
        {
            let sum: N = sums[i];
            let ghost outer = children@[i as int].1.amount();
            let ghost before = outer_total(kids.take(i as int));
            proof {
                assert(members(sums@).contains(sum.amount()));
                lemma_share(m.amount(), sum.amount());
                lemma_outer_prefix(kids, i as int);
                lemma_outer_prefix(kids, i + 1);
                lemma_blend_prefix(kids, m.amount(), i as int);
                assert(well_formed(children@[i as int].0@));
                assert(kids[i as int].1 == children@[i as int].1);
            }
            let scaling: N = m.over(sum);
            proof {
                lemma_flatten_step(
                    m.amount(),
                    scaling.amount(),
                    sum.amount(),
                    outer,
                    before,
                    outer_total(kids),
                );
            }
            Self::pour(&mut out, &children[i].0, scaling, children[i].1);
            i += 1;
        }
        proof {
            assert(kids.take(i as int) =~= kids);
        }
        out
    }

    /// Replaces every key by the weighted map that `func` gives for it and flattens the
    /// result, as `flatten` does.
    pub fn fmap_flat<A: Inner, B: Inner, F: FnMut(A) -> HashMap<B, N, S>>(
        f: HashMap<A, N, S>,
        mut func: F,
    ) -> (out: HashMap<B, N, S>)
        requires
            obeys_key_model::<A>(),
            obeys_key_model::<B>(),
            builds_valid_hashers::<S>(),
            faithful_clone::<A>(),
            faithful_clone::<B>(),
            well_formed(f@),
            forall|a: A| f@.contains_key(a) ==> call_requires(func, (a,)),
            forall|a: A, c: HashMap<B, N, S>|
                f@.contains_key(a) && call_ensures(func, (a,), c) ==> well_formed(c@),
            forall|es: Seq<(A, N)>, kids: Seq<(Map<B, N>, N)>|
                is_listing(es, f@) && #[trigger] yields(func, es, kids) ==> flatten_fits(kids),
        ensures
            is_flat_image(func, f@, out@),
    {
        let es = entries(&f);
        let ghost given = func;
        let mut children: Vec<(HashMap<B, N, S>, N)> = Vec::with_capacity(es.len());
        let mut i: usize = 0;
        while i < es.len()
            invariant
                func == given,
                faithful_clone::<A>(),
                is_listing(es@, f@),
                well_formed(f@),
                forall|a: A| f@.contains_key(a) ==> call_requires(func, (a,)),
                forall|a: A, c: HashMap<B, N, S>|
                    f@.contains_key(a) && call_ensures(func, (a,), c) ==> well_formed(c@),
                i <= es@.len(),
                children@.len() == i,
                forall|j: int|
                    0 <= j < i ==> {
                        &&& well_formed((#[trigger] children@[j]).0@)
                        &&& children@[j].1 == es@[j].1
                        &&& children@[j].1.amount() > 0
                        &&& call_ensures(func, (es@[j].0,), children@[j].0)
                    },
            decreases es@.len() - i,
        {
            let a = es[i].0.clone();
            let outer: N = es[i].1;
            proof {
                assert(cloned(es@[i as int].0, a));
                assert(f@.contains_key(es@[i as int].0) && f@[es@[i as int].0] == outer);
            }
            let child = func(a);
            children.push((child, outer));
            i += 1;
        }
        let ghost kids = views(children@);
        proof {
            assert(yields(func, es@, kids)) by {
                assert forall|j: int| 0 <= j < es@.len() implies (#[trigger] kids[j]).1 == es@[j].1
                    && may_yield(func, es@[j].0, kids[j].0) by {
                    assert(call_ensures(func, (es@[j].0,), children@[j].0));
                }
            }
        }
        Self::flatten(children)
    }
}

/// One more entry of a child, scaled, stays within what the whole child weighs, scaled.
proof fn lemma_pour_step(scaling: nat, outer: nat, inner: nat, done: nat, sum: nat, base: nat)
    requires
        scaling > 0,
        outer > 0,
        inner > 0,
        done + inner <= sum,
    ensures
        scaling * inner <= scaling * inner * outer,
        scaling * inner * outer > 0,
        scaling * inner * outer == (scaling * outer) * inner,
        (scaling * outer) * (done + inner) == (scaling * outer) * done + scaling * inner * outer,
        base + (scaling * outer) * done + scaling * inner * outer <= base + (scaling * outer) * sum,
{
    assert(scaling * inner <= scaling * inner * outer) by (nonlinear_arith)
        requires
            outer > 0,
    ;
    assert(scaling * inner * outer > 0) by (nonlinear_arith)
        requires
            scaling > 0,
            outer > 0,
            inner > 0,
    ;
    assert(scaling * inner * outer == (scaling * outer) * inner) by (nonlinear_arith);
    assert((scaling * outer) * (done + inner) == (scaling * outer) * done + (scaling * outer)
        * inner) by (nonlinear_arith);
    assert((scaling * outer) * (done + inner) <= (scaling * outer) * sum) by (nonlinear_arith)
        requires
            done + inner <= sum,
    ;
}

} // verus!
