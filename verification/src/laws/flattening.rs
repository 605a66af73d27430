//! How the strategies agree with each other when they flatten.

use vstd::prelude::*;
use vstd::multiset::Multiset;
use vstd::seq_lib::{lemma_multiset_commutative, seq_to_set_distributes_over_add, to_multiset_len};
use std::collections::{HashMap, HashSet};
use crate::bags::{lemma_bind_seq, lemma_scale, rows_sum, scale};
use crate::multiples::{common_multiple, lcm_of, lemma_least_exists};
use crate::strategies::counter;
use crate::strategies::enumerator;
use crate::strategies::enumerator::{repeated, spread};
use crate::strategies::unique_enumerator;
use crate::weights::Weight;
use crate::weighted::{
    bag, is_listing, lemma_bag_count, lemma_bind_listing, lemma_listing_bag, mass, weighted_sum,
};

verus! {

broadcast use vstd::multiset::group_multiset_axioms;

/// Scaling twice is scaling by the product.
pub proof fn lemma_scale_scale<A>(m: Multiset<A>, a: nat, b: nat)
    ensures
        scale(scale(m, a), b) =~= scale(m, a * b),
{
    lemma_scale(m, a);
    lemma_scale(scale(m, a), b);
    lemma_scale(m, a * b);
    assert forall|x: A| scale(scale(m, a), b).count(x) == scale(m, a * b).count(x) by {
        assert(b * (a * m.count(x)) == (a * b) * m.count(x)) by (nonlinear_arith);
    }
}

/// The bag of a sequence repeated is the bag of the sequence, scaled.
pub proof fn lemma_repeated_bag<B>(s: Seq<B>, n: nat)
    ensures
        repeated(s, n).to_multiset() =~= scale(s.to_multiset(), n),
    decreases n,
{
    if n == 0 {
        to_multiset_len(repeated(s, n));
        vstd::multiset::lemma_multiset_empty_len(repeated(s, n).to_multiset());
    } else {
        lemma_repeated_bag(s, (n - 1) as nat);
        lemma_multiset_commutative(repeated(s, (n - 1) as nat), s);
    }
}

/// A sequence repeated at least once has the members of the sequence.
pub proof fn lemma_repeated_support<B>(s: Seq<B>, n: nat)
    requires
        n >= 1,
    ensures
        repeated(s, n).to_set() =~= s.to_set(),
    decreases n,
{
    seq_to_set_distributes_over_add(repeated(s, (n - 1) as nat), s);
    if n == 1 {
        assert(repeated(s, 0).to_set() =~= Set::empty());
    } else {
        lemma_repeated_support(s, (n - 1) as nat);
    }
}

/// The function that gives every outcome the bag of its child sequence, scaled up to
/// `l`.
pub open spec fn scaled_child<A, B>(g: spec_fn(A) -> Seq<B>, l: nat) -> spec_fn(A) -> Multiset<B> {
    |a: A| scale(g(a).to_multiset(), l / g(a).len())
}

/// The bag of what `Enumerator` spreads: for every outcome in turn, the bag of its
/// child sequence, scaled up to `l`.
pub proof fn lemma_spread_bag<A, B>(e: Seq<A>, g: spec_fn(A) -> Seq<B>, kids: Seq<Seq<B>>, l: nat)
    requires
        kids.len() == e.len(),
        forall|i: int| 0 <= i < e.len() ==> #[trigger] kids[i] == g(e[i]),
    ensures
        spread(kids, l).to_multiset() =~= rows_sum(e, scaled_child(g, l)),
    decreases e.len(),
{
    if e.len() == 0 {
        to_multiset_len(spread(kids, l));
        vstd::multiset::lemma_multiset_empty_len(spread(kids, l).to_multiset());
    } else {
        assert(kids.last() == kids[kids.len() - 1]);
        assert(e.last() == e[e.len() - 1]);
        assert forall|i: int| 0 <= i < e.drop_last().len() implies #[trigger] kids.drop_last()[i]
            == g(e.drop_last()[i]) by {
            assert(kids.drop_last()[i] == kids[i]);
        }
        lemma_spread_bag(e.drop_last(), g, kids.drop_last(), l);
        lemma_multiset_commutative(
            spread(kids.drop_last(), l),
            repeated(kids.last(), l / kids.last().len()),
        );
        lemma_repeated_bag(kids.last(), l / kids.last().len());
    }
}

/// The bag of what `Counter` blends: for every entry of the listing in turn, the bag of
/// its child sequence, scaled up to `m`, as often as the entry weighs.
pub proof fn lemma_blend_bag<A, B, N: Weight>(
    es: Seq<(A, N)>,
    g: spec_fn(A) -> Seq<B>,
    kids: Seq<(Map<B, N>, N)>,
    m: nat,
)
    requires
        kids.len() == es.len(),
        forall|i: int|
            0 <= i < es.len() ==> (#[trigger] kids[i]).1 == es[i].1 && bag(kids[i].0) == g(
                es[i].0,
            ).to_multiset(),
    ensures
        counter::blend(kids, m) =~= weighted_sum(
            es,
            Seq::new(es.len(), |i: int| scaled_child(g, m)(es[i].0)),
        ),
    decreases es.len(),
{
    let rows = Seq::new(es.len(), |i: int| scaled_child(g, m)(es[i].0));
    if es.len() > 0 {
        let last = kids.last();
        assert(last == kids[kids.len() - 1]);
        assert(es.last() == es[es.len() - 1]);
        assert forall|i: int| 0 <= i < es.drop_last().len() implies (#[trigger] kids.drop_last()[i]).1
            == es.drop_last()[i].1 && bag(kids.drop_last()[i].0) == g(
            es.drop_last()[i].0,
        ).to_multiset() by {
            assert(kids.drop_last()[i] == kids[i]);
            assert(es.drop_last()[i] == es[i]);
        }
        lemma_blend_bag(es.drop_last(), g, kids.drop_last(), m);
        let rest = Seq::new(es.drop_last().len(), |i: int| scaled_child(g, m)(es.drop_last()[i].0));
        assert(rows.drop_last() =~= rest);
        to_multiset_len(g(es.last().0));
        assert(mass(last.0) == g(es.last().0).len());
        lemma_scale_scale(bag(last.0), m / mass(last.0), last.1.amount());
    }
}

/// Projection, for `fmap_flat`: where `Counter` holds the tally of what `Enumerator`
/// lists, it still does after both were flattened by functions that give every outcome
/// the same children, listed for the one and tallied for the other.
pub proof fn lemma_flat_image_projects<
    A,
    B,
    N: Weight,
    S,
    F1: FnMut(A) -> Vec<B>,
    F2: FnMut(A) -> HashMap<B, N, S>,
>(
    listed: F1,
    counted: F2,
    g: spec_fn(A) -> Seq<B>,
    e: Seq<A>,
    c: Map<A, N>,
    e2: Seq<B>,
    c2: Map<B, N>,
)
    requires
        counter::well_formed(c),
        bag(c) == e.to_multiset(),
        forall|a: A, v: Vec<B>| #[trigger] call_ensures(listed, (a,), v) ==> v@ == g(a),
        forall|a: A, w: HashMap<B, N, S>| #[trigger]
            call_ensures(counted, (a,), w) ==> bag(w@) == g(a).to_multiset(),
        enumerator::is_flat_image(listed, e, e2),
        counter::is_flat_image(counted, c, c2),
    ensures
        bag(c2) == e2.to_multiset(),
        mass(c2) == e2.len(),
{
    to_multiset_len(e2);
    let kids = choose|kids: Seq<Seq<B>>| #[trigger]
        enumerator::yields(listed, e, kids) && e2 == enumerator::flattened(kids);
    let (es, pairs) = choose|es: Seq<(A, N)>, pairs: Seq<(Map<B, N>, N)>|
        is_listing(es, c) && #[trigger] counter::yields(counted, es, pairs) && bag(c2)
            == counter::flattened(pairs);
    assert forall|i: int| 0 <= i < e.len() implies #[trigger] kids[i] == g(e[i]) by {
        assert(enumerator::may_yield(listed, e[i], kids[i]));
    }
    assert forall|i: int| 0 <= i < es.len() implies (#[trigger] pairs[i]).1 == es[i].1 && bag(
        pairs[i].0,
    ) == g(es[i].0).to_multiset() && mass(pairs[i].0) == g(es[i].0).len() by {
        to_multiset_len(g(es[i].0));
    }
    lemma_listing_bag(es, c);
    assert forall|a: A| e.contains(a) <==> c.contains_key(a) by {
        lemma_bag_count(c, a);
        vstd::seq_lib::to_multiset_contains(e, a);
        if c.contains_key(a) {
            assert(c[a].amount() > 0);
        }
    }
    let lens = enumerator::lengths(kids);
    let masses = counter::child_masses(pairs);
    assert(lens =~= masses) by {
        assert forall|n: nat| lens.contains(n) implies masses.contains(n) by {
            let i = choose|i: int| 0 <= i < kids.len() && (#[trigger] kids[i]).len() == n;
            assert(e.contains(e[i]));
            assert(c.contains_key(e[i]));
            let j = choose|j: int| 0 <= j < es.len() && #[trigger] es[j].0 == e[i];
            assert(mass(pairs[j].0) == n);
        }
        assert forall|n: nat| masses.contains(n) implies lens.contains(n) by {
            let j = choose|j: int| 0 <= j < pairs.len() && mass((#[trigger] pairs[j]).0) == n;
            assert(c.contains_key(es[j].0));
            assert(e.contains(es[j].0));
            let i = choose|i: int| 0 <= i < e.len() && e[i] == es[j].0;
            assert(kids[i].len() == n);
        }
    }
    assert(enumerator::has_empty(kids) == counter::has_empty_child(pairs)) by {
        if enumerator::has_empty(kids) {
            assert(lens.contains(0));
            assert(masses.contains(0));
        }
        if counter::has_empty_child(pairs) {
            assert(masses.contains(0));
            assert(lens.contains(0));
        }
    }
    if enumerator::has_empty(kids) {
        to_multiset_len(e2);
        vstd::multiset::lemma_multiset_empty_len(e2.to_multiset());
    } else {
        let l = lcm_of(lens);
        let k = scaled_child(g, l);
        lemma_spread_bag(e, g, kids, l);
        lemma_bind_seq(e, k);
        lemma_blend_bag(es, g, pairs, l);
        let rows = Seq::new(es.len(), |i: int| k(es[i].0));
        lemma_bind_listing(es, rows, k);
    }
}

/// What `Enumerator` spreads has the members of the sequences it spreads, where each
/// of them has a member and is no longer than `l`.
pub proof fn lemma_spread_support<B>(kids: Seq<Seq<B>>, l: nat)
    requires
        forall|i: int| 0 <= i < kids.len() ==> 0 < (#[trigger] kids[i]).len() <= l,
    ensures
        forall|b: B|
            spread(kids, l).contains(b) <==> exists|i: int|
                0 <= i < kids.len() && (#[trigger] kids[i]).contains(b),
    decreases kids.len(),
{
    if kids.len() == 0 {
        assert(spread(kids, l) =~= Seq::empty());
    } else {
        let last = kids.last();
        let rest = kids.drop_last();
        assert(last == kids[kids.len() - 1]);
        assert forall|i: int| 0 <= i < rest.len() implies 0 < (#[trigger] rest[i]).len() <= l by {
            assert(rest[i] == kids[i]);
        }
        lemma_spread_support(rest, l);
        let times = l / last.len();
        assert(times >= 1) by (nonlinear_arith)
            requires
                times == l / last.len(),
                0 < last.len() <= l,
        ;
        lemma_repeated_support(last, times);
        seq_to_set_distributes_over_add(spread(rest, l), repeated(last, times));
        assert forall|b: B| spread(kids, l).contains(b) implies exists|i: int|
            0 <= i < kids.len() && (#[trigger] kids[i]).contains(b) by {
            assert(spread(kids, l).to_set().contains(b));
            if spread(rest, l).to_set().contains(b) {
                assert(spread(rest, l).contains(b));
                let i = choose|i: int| 0 <= i < rest.len() && (#[trigger] rest[i]).contains(b);
                assert(rest[i] == kids[i]);
            } else {
                assert(repeated(last, times).to_set().contains(b));
                assert(last.to_set().contains(b));
                assert(kids[kids.len() - 1].contains(b));
            }
        }
        assert forall|b: B|
            (exists|i: int| 0 <= i < kids.len() && (#[trigger] kids[i]).contains(b)) implies spread(
            kids,
            l,
        ).contains(b) by {
            let i = choose|i: int| 0 <= i < kids.len() && (#[trigger] kids[i]).contains(b);
            if i < rest.len() {
                assert(rest[i] == kids[i]);
                assert(spread(rest, l).contains(b));
                assert(spread(rest, l).to_set().contains(b));
            } else {
                assert(last.to_set().contains(b));
                assert(repeated(last, times).to_set().contains(b));
            }
            assert(spread(kids, l).to_set().contains(b));
        }
    }
}

/// Support, for `fmap_flat`: where `UniqueEnumerator` holds the values that `Enumerator`
/// lists, it still does after both were flattened by functions that give every outcome
/// the same children, listed for the one and kept once for the other, provided that
/// every outcome has a child. (Where one has none, `Enumerator` lists nothing, while
/// `UniqueEnumerator` keeps the children of the others.)
pub proof fn lemma_flat_image_support<
    A,
    B,
    S,
    F1: FnMut(A) -> Vec<B>,
    F2: FnMut(A) -> HashSet<B, S>,
>(
    listed: F1,
    kept: F2,
    g: spec_fn(A) -> Seq<B>,
    e: Seq<A>,
    u: Set<A>,
    e2: Seq<B>,
    u2: Set<B>,
)
    requires
        u == e.to_set(),
        forall|a: A, v: Vec<B>| #[trigger] call_ensures(listed, (a,), v) ==> v@ == g(a),
        forall|a: A, w: HashSet<B, S>| #[trigger]
            call_ensures(kept, (a,), w) ==> w@ == g(a).to_set(),
        forall|i: int| 0 <= i < e.len() ==> g(#[trigger] e[i]).len() > 0,
        enumerator::flatten_fits(e.map_values(g)),
        enumerator::is_flat_image(listed, e, e2),
        unique_enumerator::is_flat_image(kept, u, u2),
    ensures
        u2 == e2.to_set(),
{
    let kids = choose|kids: Seq<Seq<B>>| #[trigger]
        enumerator::yields(listed, e, kids) && e2 == enumerator::flattened(kids);
    assert forall|i: int| 0 <= i < e.len() implies #[trigger] kids[i] == g(e[i]) by {
        assert(enumerator::may_yield(listed, e[i], kids[i]));
    }
    assert(kids =~= e.map_values(g));
    assert(!enumerator::has_empty(kids)) by {
        if enumerator::has_empty(kids) {
            let i = choose|i: int| 0 <= i < kids.len() && (#[trigger] kids[i]).len() == 0;
            assert(g(e[i]).len() > 0);
        }
    }
    let lens = enumerator::lengths(kids);
    let c = choose|c: nat| #[trigger] common_multiple(c, lens) && c <= usize::MAX;
    lemma_least_exists(lens, c);
    let l = lcm_of(lens);
    assert forall|i: int| 0 <= i < kids.len() implies 0 < (#[trigger] kids[i]).len() <= l by {
        assert(lens.contains(kids[i].len()));
        assert(g(e[i]).len() > 0);
        if l < kids[i].len() {
            vstd::arithmetic::div_mod::lemma_small_mod(l, kids[i].len());
        }
    }
    lemma_spread_support(kids, l);
    let k = choose|k: spec_fn(A) -> Set<B>| #[trigger]
        unique_enumerator::yields(kept, u, k) && u2 == unique_enumerator::set_bind(u, k);
    assert forall|a: A| u.contains(a) implies k(a) == g(a).to_set() by {
        assert(unique_enumerator::may_yield(kept, a, k(a)));
    }
    assert forall|b: B| u2.contains(b) implies e2.to_set().contains(b) by {
        let a = choose|a: A| u.contains(a) && #[trigger] k(a).contains(b);
        let i = choose|i: int| 0 <= i < e.len() && e[i] == a;
        assert(g(e[i]).to_set().contains(b));
        assert(kids[i].contains(b));
        assert(e2.contains(b));
    }
    assert forall|b: B| e2.to_set().contains(b) implies u2.contains(b) by {
        assert(e2.contains(b));
        let i = choose|i: int| 0 <= i < kids.len() && (#[trigger] kids[i]).contains(b);
        assert(u.contains(e[i]));
        assert(g(e[i]).to_set().contains(b));
        assert(k(e[i]).contains(b));
    }
    assert(u2 =~= e2.to_set());
}

} // verus!
