//! The identity law and the composition law of `fmap`, for each strategy.

use vstd::prelude::*;
use vstd::multiset::Multiset;
use crate::bags::{bag_map, lemma_bind_agree, lemma_map_identity, lemma_map_map};
use crate::lifted::computes;
use crate::strategies::counter;
use crate::strategies::enumerator;
use crate::strategies::unique_enumerator;
use crate::weighted::{bag, lemma_bag_count, lemma_bag_determines};
use crate::weights::Weight;

verus! {

broadcast use vstd::multiset::group_multiset_axioms;

/// Identity, under `Sampler`: mapping the identity over an outcome gives the outcome.
pub proof fn lemma_sampler_identity<A, F: Fn(A) -> A>(func: F, a: A, out: A)
    requires
        computes(func, |x: A| x),
        call_ensures(func, (a,), out),
    ensures
        out == a,
{
}

/// Composition, under `Sampler`: mapping `g` and then `h` gives what mapping their
/// composition gives.
pub proof fn lemma_sampler_composition<A, B, C, F1: Fn(A) -> B, F2: Fn(B) -> C, F3: Fn(A) -> C>(
    first: F1,
    second: F2,
    both: F3,
    g: spec_fn(A) -> B,
    h: spec_fn(B) -> C,
    f: A,
    mid: B,
    left: C,
    right: C,
)
    requires
        computes(first, g),
        computes(second, h),
        computes(both, |a: A| h(g(a))),
        call_ensures(first, (f,), mid),
        call_ensures(second, (mid,), left),
        call_ensures(both, (f,), right),
    ensures
        left == right,
{
}

/// Identity, under `Enumerator` and `PopulationSampler`: mapping the identity over a
/// sequence of outcomes gives the sequence; so it does over the sequence that holds one
/// outcome only.
pub proof fn lemma_enumerator_identity<A, F: Fn(A) -> A>(func: F, f: Seq<A>, out: Seq<A>)
    requires
        computes(func, |x: A| x),
        enumerator::is_image(func, f, out),
    ensures
        out == f,
{
    assert(out =~= f);
}

/// Composition, under `Enumerator` and `PopulationSampler`: mapping `g` and then `h`
/// gives what mapping their composition gives.
pub proof fn lemma_enumerator_composition<
    A,
    B,
    C,
    F1: Fn(A) -> B,
    F2: Fn(B) -> C,
    F3: Fn(A) -> C,
>(
    first: F1,
    second: F2,
    both: F3,
    g: spec_fn(A) -> B,
    h: spec_fn(B) -> C,
    f: Seq<A>,
    mid: Seq<B>,
    left: Seq<C>,
    right: Seq<C>,
)
    requires
        computes(first, g),
        computes(second, h),
        computes(both, |a: A| h(g(a))),
        enumerator::is_image(first, f, mid),
        enumerator::is_image(second, mid, left),
        enumerator::is_image(both, f, right),
    ensures
        left == right,
{
    assert forall|i: int| 0 <= i < f.len() implies left[i] == right[i] by {
        assert(mid[i] == g(f[i]));
        assert(left[i] == h(mid[i]));
        assert(right[i] == h(g(f[i])));
    }
    assert(left =~= right);
}

/// Identity, under `UniqueEnumerator`: mapping the identity over a set of outcomes gives
/// the set; so it does over the set that holds one outcome only.
pub proof fn lemma_unique_enumerator_identity<A, F: Fn(A) -> A>(func: F, f: Set<A>, out: Set<A>)
    requires
        computes(func, |x: A| x),
        unique_enumerator::is_image(func, f, out),
    ensures
        out == f,
{
    let h = choose|h: spec_fn(A) -> A| #[trigger]
        unique_enumerator::picked_by(func, f, h) && out == f.map(h);
    assert forall|a: A| f.contains(a) implies h(a) == a by {
        assert(call_ensures(func, (a,), h(a)));
    }
    assert forall|a: A| f.map(h).contains(a) implies f.contains(a) by {
        let x = choose|x: A| f.contains(x) && a == h(x);
        assert(h(x) == x);
    }
    assert forall|a: A| f.contains(a) implies f.map(h).contains(a) by {
        assert(h(a) == a);
    }
    assert(out =~= f);
}

/// Composition, under `UniqueEnumerator`: mapping `g` and then `h` gives what mapping
/// their composition gives.
pub proof fn lemma_unique_enumerator_composition<
    A,
    B,
    C,
    F1: Fn(A) -> B,
    F2: Fn(B) -> C,
    F3: Fn(A) -> C,
>(
    first: F1,
    second: F2,
    both: F3,
    g: spec_fn(A) -> B,
    h: spec_fn(B) -> C,
    f: Set<A>,
    mid: Set<B>,
    left: Set<C>,
    right: Set<C>,
)
    requires
        computes(first, g),
        computes(second, h),
        computes(both, |a: A| h(g(a))),
        unique_enumerator::is_image(first, f, mid),
        unique_enumerator::is_image(second, mid, left),
        unique_enumerator::is_image(both, f, right),
    ensures
        left == right,
{
    let h1 = choose|h1: spec_fn(A) -> B| #[trigger]
        unique_enumerator::picked_by(first, f, h1) && mid == f.map(h1);
    let h2 = choose|h2: spec_fn(B) -> C| #[trigger]
        unique_enumerator::picked_by(second, mid, h2) && left == mid.map(h2);
    let h3 = choose|h3: spec_fn(A) -> C| #[trigger]
        unique_enumerator::picked_by(both, f, h3) && right == f.map(h3);
    assert forall|a: A| f.contains(a) implies h1(a) == g(a) && h3(a) == h(g(a)) && mid.contains(
        g(a),
    ) by {
        assert(call_ensures(first, (a,), h1(a)));
        assert(call_ensures(both, (a,), h3(a)));
    }
    assert forall|b: B| mid.contains(b) implies h2(b) == h(b) by {
        assert(call_ensures(second, (b,), h2(b)));
    }
    assert forall|c: C| left.contains(c) implies right.contains(c) by {
        let b = choose|b: B| mid.contains(b) && c == h2(b);
        let a = choose|a: A| f.contains(a) && b == h1(a);
        assert(c == h3(a));
    }
    assert forall|c: C| right.contains(c) implies left.contains(c) by {
        let a = choose|a: A| f.contains(a) && c == h3(a);
        assert(mid.contains(g(a)));
        assert(c == h2(g(a)));
    }
    assert(left =~= right);
}

/// Where `func` computes `g`, what mapping `func` over a weighted map gives has the
/// image of the map's bag under `g` as its bag.
pub proof fn lemma_counter_image<A, B, N: Weight, F: Fn(A) -> B>(
    func: F,
    g: spec_fn(A) -> B,
    f: Map<A, N>,
    out: Map<B, N>,
)
    requires
        f.dom().finite(),
        computes(func, g),
        counter::is_image(func, f, out),
    ensures
        bag(out) == bag_map(bag(f), g),
{
    let h = choose|h: spec_fn(A) -> B| #[trigger]
        counter::chosen_by(func, f, h) && bag(out) == bag_map(bag(f), h);
    assert forall|a: A| bag(f).count(a) > 0 implies Multiset::singleton(h(a))
        == Multiset::singleton(g(a)) by {
        lemma_bag_count(f, a);
        assert(call_ensures(func, (a,), h(a)));
    }
    lemma_bind_agree(bag(f), |a: A| Multiset::singleton(h(a)), |a: A| Multiset::singleton(g(a)));
}

/// Identity, under `Counter`: mapping the identity over a weighted map gives the map; so
/// it does over the map that gives one outcome the weight one.
pub proof fn lemma_counter_identity<A, N: Weight, F: Fn(A) -> A>(func: F, f: Map<A, N>, out: Map<A, N>)
    requires
        counter::well_formed(f),
        computes(func, |x: A| x),
        counter::is_image(func, f, out),
    ensures
        out == f,
{
    lemma_counter_image(func, |x: A| x, f, out);
    lemma_map_identity(bag(f));
    lemma_bag_determines(out, f);
}

/// Composition, under `Counter`: mapping `g` and then `h` gives what mapping their
/// composition gives.
pub proof fn lemma_counter_composition<
    A,
    B,
    C,
    N: Weight,
    F1: Fn(A) -> B,
    F2: Fn(B) -> C,
    F3: Fn(A) -> C,
>(
    first: F1,
    second: F2,
    both: F3,
    g: spec_fn(A) -> B,
    h: spec_fn(B) -> C,
    f: Map<A, N>,
    mid: Map<B, N>,
    left: Map<C, N>,
    right: Map<C, N>,
)
    requires
        counter::well_formed(f),
        computes(first, g),
        computes(second, h),
        computes(both, |a: A| h(g(a))),
        counter::is_image(first, f, mid),
        counter::is_image(second, mid, left),
        counter::is_image(both, f, right),
    ensures
        left == right,
{
    lemma_counter_image(first, g, f, mid);
    lemma_counter_image(second, h, mid, left);
    lemma_counter_image(both, |a: A| h(g(a)), f, right);
    lemma_map_map(bag(f), g, h);
    lemma_bag_determines(left, right);
}

} // verus!
