//! How the strategies agree with each other on one random process: `Counter` holds the
//! tally of what `Enumerator` lists, and `UniqueEnumerator` its support.

use vstd::prelude::*;
use vstd::arithmetic::div_mod::{lemma_fundamental_div_mod, lemma_fundamental_div_mod_converse};
use vstd::multiset::Multiset;
use vstd::seq_lib::{lemma_multiset_commutative, to_multiset_contains, to_multiset_len};
use crate::bags::{bag_bind, lemma_bind_agree, lemma_bind_insert, lemma_map_seq};
use crate::laws::functor_laws::lemma_counter_image;
use crate::lifted::{computes, computes_with, is_row, product};
use crate::random_variables::{IntegerCarrier, RandomVariable};
use crate::strategies::counter;
use crate::strategies::enumerator;
use crate::strategies::unique_enumerator;
use crate::weighted::{bag, lemma_bag_count, mass};
use crate::weights::Weight;

verus! {

broadcast use vstd::multiset::group_multiset_axioms;

/// The row of `g` for `a` over `space`: `a` beside every member of `space` in turn,
/// each pair taken through `g`.
pub open spec fn row<A, R, B>(a: A, space: Seq<R>, g: spec_fn(A, R) -> B) -> Seq<B> {
    Seq::new(space.len(), |j: int| g(a, space[j]))
}

/// A single outcome enters `Counter` as the tally of how it enters `Enumerator`: the
/// map that gives it the weight one is well-formed, and its bag is the bag of the
/// sequence that holds it alone.
pub proof fn lemma_pure_agrees<A, N: Weight>(a: A, m: Map<A, N>)
    requires
        m.dom() == Set::<A>::empty().insert(a),
        m[a].amount() == 1,
    ensures
        counter::well_formed(m),
        bag(m) == seq![a].to_multiset(),
{
    let s = seq![a];
    assert(Seq::<A>::empty().push(a) =~= s);
    vstd::seq_lib::to_multiset_build(Seq::<A>::empty(), a);
    to_multiset_len(Seq::<A>::empty());
    vstd::multiset::lemma_multiset_empty_len(Seq::<A>::empty().to_multiset());
    assert forall|x: A| bag(m).count(x) == s.to_multiset().count(x) by {
        lemma_bag_count(m, x);
    }
    assert(bag(m) =~= s.to_multiset());
    to_multiset_len(s);
    N::lemma_weight(m[a], m[a]);
}

/// A single outcome enters `UniqueEnumerator` as the support of how it enters
/// `Enumerator`: the set that holds it alone has the members of the sequence that holds
/// it alone.
pub proof fn lemma_pure_support<A>(a: A)
    ensures
        Set::<A>::empty().insert(a) == seq![a].to_set(),
{
    let s = seq![a];
    assert(s[0] == a);
    assert(Set::<A>::empty().insert(a) =~= s.to_set());
}

/// The weights of a tally sum to the length of what it tallies.
pub proof fn lemma_weight_is_length<A, N: Weight>(c: Map<A, N>, e: Seq<A>)
    requires
        bag(c) == e.to_multiset(),
    ensures
        mass(c) == e.len(),
{
    to_multiset_len(e);
}

/// Projection, for `fmap`: where `Counter` holds the tally of what `Enumerator` lists,
/// it still does after the same function was mapped over both.
pub proof fn lemma_image_projects<A, B, N: Weight, F1: Fn(A) -> B, F2: Fn(A) -> B>(
    listed: F1,
    counted: F2,
    g: spec_fn(A) -> B,
    e: Seq<A>,
    c: Map<A, N>,
    e2: Seq<B>,
    c2: Map<B, N>,
)
    requires
        c.dom().finite(),
        bag(c) == e.to_multiset(),
        computes(listed, g),
        computes(counted, g),
        enumerator::is_image(listed, e, e2),
        counter::is_image(counted, c, c2),
    ensures
        bag(c2) == e2.to_multiset(),
        mass(c2) == e2.len(),
{
    lemma_counter_image(counted, g, c, c2);
    assert(e2 =~= e.map_values(g));
    lemma_map_seq(e, g);
    to_multiset_len(e2);
}

/// A product over a sequence with one more member ends in that member's row.
pub proof fn lemma_product_push<A, R, B>(s: Seq<A>, a: A, space: Seq<R>, g: spec_fn(A, R) -> B)
    ensures
        product(s.push(a), space, g) =~= product(s, space, g) + row(a, space, g),
{
    let n = space.len() as int;
    let more = s.push(a);
    let left = product(more, space, g);
    let right = product(s, space, g) + row(a, space, g);
    assert((s.len() + 1) * n == s.len() * n + n) by (nonlinear_arith);
    assert(left.len() == right.len());
    if n > 0 {
        assert forall|k: int| 0 <= k < left.len() implies left[k] == right[k] by {
            lemma_fundamental_div_mod(k, n);
            let q = k / n;
            let r = k % n;
            assert(0 <= r < n);
            if k < s.len() * n {
                assert(q < s.len()) by (nonlinear_arith)
                    requires
                        k == n * q + r,
                        0 <= r,
                        k < s.len() * n,
                        n > 0,
                ;
                assert(0 <= q) by (nonlinear_arith)
                    requires
                        k == n * q + r,
                        r < n,
                        0 <= k,
                        n > 0,
                ;
                assert(more[q] == s[q]);
            } else {
                let j = k - s.len() * n;
                lemma_fundamental_div_mod_converse(k, n, s.len() as int, j);
                assert(more[q] == a);
                assert(right[k] == row(a, space, g)[j]);
            }
        }
    }
}

/// The bag of a product holds every member's row once for each time the member occurs.
pub proof fn lemma_product_bag<A, R, B>(s: Seq<A>, space: Seq<R>, g: spec_fn(A, R) -> B)
    ensures
        product(s, space, g).to_multiset() =~= bag_bind(
            s.to_multiset(),
            |a: A| row(a, space, g).to_multiset(),
        ),
    decreases s.len(),
{
    let k = |a: A| row(a, space, g).to_multiset();
    if s.len() == 0 {
        assert(0 * space.len() == 0);
        to_multiset_len(product(s, space, g));
        to_multiset_len(s);
        vstd::multiset::lemma_multiset_empty_len(product(s, space, g).to_multiset());
        assert(s.to_multiset().len() == 0);
    } else {
        let rest = s.drop_last();
        lemma_product_bag(rest, space, g);
        assert(rest.push(s.last()) =~= s);
        lemma_product_push(rest, s.last(), space, g);
        lemma_multiset_commutative(product(rest, space, g), row(s.last(), space, g));
        vstd::seq_lib::to_multiset_build(rest, s.last());
        lemma_bind_insert(rest.to_multiset(), s.last(), k);
    }
}

/// Projection, for `fmap_rand` and `fmap_rand_range`: where `Counter` holds the tally of
/// what `Enumerator` lists, it still does after the same function was mapped over both
/// beside the same sample space; and its weights sum to the length of the list.
pub proof fn lemma_product_projects<
    A,
    R,
    B,
    N: Weight,
    F1: Fn(A, R) -> B,
    F2: Fn(A, R) -> B,
>(
    listed: F1,
    counted: F2,
    g: spec_fn(A, R) -> B,
    space: Seq<R>,
    e: Seq<A>,
    c: Map<A, N>,
    e2: Seq<B>,
    c2: Map<B, N>,
)
    requires
        c.dom().finite(),
        bag(c) == e.to_multiset(),
        computes_with(listed, g),
        computes_with(counted, g),
        enumerator::is_product(listed, e, space, e2),
        counter::is_product(counted, c, space, c2),
    ensures
        bag(c2) == e2.to_multiset(),
        mass(c2) == e2.len(),
        e2.len() == e.len() * space.len(),
{
    assert(e2 =~= product(e, space, g));
    let k = choose|k: spec_fn(A) -> Multiset<B>| #[trigger]
        counter::rows_by(counted, c, space, k) && bag(c2) == bag_bind(bag(c), k);
    let direct = |a: A| row(a, space, g).to_multiset();
    assert forall|a: A| bag(c).count(a) > 0 implies k(a) == direct(a) by {
        lemma_bag_count(c, a);
        let bs = choose|bs: Seq<B>| #[trigger]
            is_row(counted, a, space, bs) && k(a) == bs.to_multiset();
        assert(bs =~= row(a, space, g));
    }
    lemma_bind_agree(bag(c), k, direct);
    lemma_product_bag(e, space, g);
    to_multiset_len(e2);
}

/// Support, for `fmap`: where `UniqueEnumerator` holds the values that `Enumerator`
/// lists, it still does after the same function was mapped over both.
pub proof fn lemma_image_support<A, B, F1: Fn(A) -> B, F2: Fn(A) -> B>(
    listed: F1,
    kept: F2,
    g: spec_fn(A) -> B,
    e: Seq<A>,
    u: Set<A>,
    e2: Seq<B>,
    u2: Set<B>,
)
    requires
        u == e.to_set(),
        computes(listed, g),
        computes(kept, g),
        enumerator::is_image(listed, e, e2),
        unique_enumerator::is_image(kept, u, u2),
    ensures
        u2 == e2.to_set(),
{
    let h = choose|h: spec_fn(A) -> B| #[trigger]
        unique_enumerator::picked_by(kept, u, h) && u2 == u.map(h);
    assert forall|b: B| u2.contains(b) implies e2.to_set().contains(b) by {
        let a = choose|a: A| u.contains(a) && b == h(a);
        assert(call_ensures(kept, (a,), h(a)));
        let i = choose|i: int| 0 <= i < e.len() && e[i] == a;
        assert(e2[i] == g(e[i]));
    }
    assert forall|b: B| e2.to_set().contains(b) implies u2.contains(b) by {
        let i = choose|i: int| 0 <= i < e2.len() && e2[i] == b;
        assert(e2[i] == g(e[i]));
        assert(u.contains(e[i]));
        assert(call_ensures(kept, (e[i],), h(e[i])));
    }
    assert(u2 =~= e2.to_set());
}

/// Support, for `fmap_rand` and `fmap_rand_range`: where `UniqueEnumerator` holds the
/// values that `Enumerator` lists, it still does after the same function was mapped
/// over both beside the same sample space.
pub proof fn lemma_product_support<A, R, B, F1: Fn(A, R) -> B, F2: Fn(A, R) -> B>(
    listed: F1,
    kept: F2,
    g: spec_fn(A, R) -> B,
    space: Seq<R>,
    e: Seq<A>,
    u: Set<A>,
    e2: Seq<B>,
    u2: Set<B>,
)
    requires
        u == e.to_set(),
        computes_with(listed, g),
        computes_with(kept, g),
        enumerator::is_product(listed, e, space, e2),
        unique_enumerator::is_product(kept, u, space, u2),
    ensures
        u2 == e2.to_set(),
{
    let n = space.len() as int;
    let k = choose|k: spec_fn(A) -> Set<B>| #[trigger]
        unique_enumerator::row_sets_by(kept, u, space, k) && u2 == unique_enumerator::set_bind(
            u,
            k,
        );
    assert forall|b: B| u2.contains(b) implies e2.to_set().contains(b) by {
        let a = choose|a: A| u.contains(a) && #[trigger] k(a).contains(b);
        let bs = choose|bs: Seq<B>| #[trigger] is_row(kept, a, space, bs) && k(a) == bs.to_set();
        let j = choose|j: int| 0 <= j < bs.len() && bs[j] == b;
        let i = choose|i: int| 0 <= i < e.len() && e[i] == a;
        let p = i * n + j;
        lemma_fundamental_div_mod_converse(p, n, i, j);
        assert(0 <= p < e.len() * n) by (nonlinear_arith)
            requires
                0 <= i < e.len(),
                0 <= j < n,
                p == i * n + j,
        ;
        assert(e2[p] == g(e[i], space[j]));
        assert(bs[j] == g(a, space[j]));
    }
    assert forall|b: B| e2.to_set().contains(b) implies u2.contains(b) by {
        let p = choose|p: int| 0 <= p < e2.len() && e2[p] == b;
        assert(n > 0) by (nonlinear_arith)
            requires
                0 <= p < e.len() * n,
        ;
        lemma_fundamental_div_mod(p, n);
        let i = p / n;
        let j = p % n;
        assert(0 <= i < e.len()) by (nonlinear_arith)
            requires
                p == n * i + j,
                0 <= j < n,
                0 <= p < e.len() * n,
        ;
        assert(e2[p] == g(e[i], space[j]));
        assert(u.contains(e[i]));
        let bs = choose|bs: Seq<B>| #[trigger]
            is_row(kept, e[i], space, bs) && k(e[i]) == bs.to_set();
        assert(bs[j] == g(e[i], space[j]));
        assert(bs.to_set().contains(bs[j]));
        assert(k(e[i]).contains(b));
    }
    assert(u2 =~= e2.to_set());
}

/// Listing one outcome beside a sample space, and keeping of each pair the value drawn,
/// gives the sample space itself.
pub proof fn lemma_enumeration_is_space<A, R, F: Fn(A, R) -> R>(
    func: F,
    a: A,
    space: Seq<R>,
    out: Seq<R>,
)
    requires
        computes_with(func, |a: A, r: R| r),
        enumerator::is_product(func, seq![a], space, out),
    ensures
        out == space,
{
    let n = space.len() as int;
    assert(1 * n == n);
    assert forall|k: int| 0 <= k < out.len() implies out[k] == space[k] by {
        lemma_fundamental_div_mod_converse(k, n, 0, k);
    }
    assert(out =~= space);
}

/// The sample space of `bool` holds each of its values once.
pub proof fn lemma_bool_space_once(v: bool)
    ensures
        <bool as RandomVariable>::sample_space().to_multiset().count(v) == 1,
{
    let space = <bool as RandomVariable>::sample_space();
    assert(space =~= Seq::<bool>::empty().push(false).push(true));
    vstd::seq_lib::to_multiset_build(Seq::<bool>::empty(), false);
    vstd::seq_lib::to_multiset_build(Seq::<bool>::empty().push(false), true);
    to_multiset_len(Seq::<bool>::empty());
    vstd::multiset::lemma_multiset_empty_len(Seq::<bool>::empty().to_multiset());
}

/// The sample space of a fixed-width integer type holds each of its values once.
pub proof fn lemma_integer_space_once<T: IntegerCarrier>(v: T)
    ensures
        <T as RandomVariable>::sample_space().to_multiset().count(v) == 1,
{
    let space = <T as RandomVariable>::sample_space();
    T::lemma_within(v);
    assert(space[v as int - T::lowest()] == v);
    assert(space.contains(v));
    assert forall|i: int, j: int| 0 <= i < space.len() && 0 <= j < space.len() && i != j implies space[i]
        != space[j] by {
        T::lemma_of_int(T::lowest() + i);
        T::lemma_of_int(T::lowest() + j);
    }
    space.lemma_multiset_has_no_duplicates();
    to_multiset_contains(space, v);
}

} // verus!
