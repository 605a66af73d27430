//! How much weight `Counter` gives out when it flattens.

use vstd::prelude::*;
use std::collections::HashMap;
use crate::bags::{lemma_copies, lemma_scale, scale};
use crate::multiples::{common_multiple, lcm_of, lemma_least_exists};
use crate::strategies::counter::{
    blend, child_masses, flatten_fits, flattened, has_empty_child, outer_total, yields,
};
use crate::weighted::{bag, is_listing, lemma_listing_bag, listing_bag, mass};
use crate::weights::Weight;

verus! {

broadcast use vstd::multiset::group_multiset_axioms;

/// A child map that is scaled up to a multiple `m` of its total weight, once for each
/// unit of its outer weight, weighs `m` times its outer weight.
pub proof fn lemma_branch_mass<B, N: Weight>(child: Map<B, N>, outer: N, m: nat)
    requires
        mass(child) > 0,
        m % mass(child) == 0,
    ensures
        scale(bag(child), (m / mass(child)) * outer.amount()).len() == m * outer.amount(),
{
    let sum = mass(child);
    let share = m / sum;
    lemma_scale(bag(child), share * outer.amount());
    vstd::arithmetic::div_mod::lemma_fundamental_div_mod(m as int, sum as int);
    assert((share * outer.amount()) * sum == m * outer.amount()) by (nonlinear_arith)
        requires
            m == sum * share + 0,
    ;
}

/// Child maps blended on a common multiple `m` of their total weights weigh `m` times
/// the sum of their outer weights.
pub proof fn lemma_blend_mass<B, N: Weight>(kids: Seq<(Map<B, N>, N)>, m: nat)
    requires
        forall|i: int|
            0 <= i < kids.len() ==> mass((#[trigger] kids[i]).0) > 0 && m % mass(kids[i].0) == 0,
    ensures
        blend(kids, m).len() == m * outer_total(kids),
    decreases kids.len(),
{
    if kids.len() == 0 {
        assert(m * 0 == 0);
    } else {
        let last = kids.last();
        assert(last == kids[kids.len() - 1]);
        assert forall|i: int| 0 <= i < kids.drop_last().len() implies mass(
            (#[trigger] kids.drop_last()[i]).0,
        ) > 0 && m % mass(kids.drop_last()[i].0) == 0 by {
            assert(kids.drop_last()[i] == kids[i]);
        }
        lemma_blend_mass(kids.drop_last(), m);
        lemma_branch_mass(last.0, last.1, m);
        assert(m * outer_total(kids.drop_last()) + m * last.1.amount() == m * (outer_total(
            kids.drop_last(),
        ) + last.1.amount())) by (nonlinear_arith);
    }
}

/// Mass preservation of `Counter`'s flattening: where no child map is empty, every
/// child gives out the least common multiple of the children's total weights, times its
/// outer weight; and the whole weighs that least common multiple times the sum of the
/// outer weights.
pub proof fn lemma_flattened_mass<B, N: Weight>(kids: Seq<(Map<B, N>, N)>)
    requires
        !has_empty_child(kids),
        flatten_fits(kids),
    ensures
        flattened(kids).len() == lcm_of(child_masses(kids)) * outer_total(kids),
        forall|i: int|
            0 <= i < kids.len() ==> scale(
                bag((#[trigger] kids[i]).0),
                (lcm_of(child_masses(kids)) / mass(kids[i].0)) * kids[i].1.amount(),
            ).len() == lcm_of(child_masses(kids)) * kids[i].1.amount(),
{
    let masses = child_masses(kids);
    let c = choose|c: nat| #[trigger]
        common_multiple(c, masses) && c * outer_total(kids) <= N::limit();
    lemma_least_exists(masses, c);
    let m = lcm_of(masses);
    assert forall|i: int| 0 <= i < kids.len() implies mass((#[trigger] kids[i]).0) > 0 && m % mass(
        kids[i].0,
    ) == 0 by {
        assert(masses.contains(mass(kids[i].0)));
    }
    lemma_blend_mass(kids, m);
    assert forall|i: int| 0 <= i < kids.len() implies scale(
        bag((#[trigger] kids[i]).0),
        (m / mass(kids[i].0)) * kids[i].1.amount(),
    ).len() == m * kids[i].1.amount() by {
        lemma_branch_mass(kids[i].0, kids[i].1, m);
    }
}

/// The outer weights beside the children of a listing sum to what the listing weighs.
pub proof fn lemma_outer_total_is_mass<A, B, N: Weight>(
    es: Seq<(A, N)>,
    kids: Seq<(Map<B, N>, N)>,
)
    requires
        kids.len() == es.len(),
        forall|i: int| 0 <= i < es.len() ==> (#[trigger] kids[i]).1 == es[i].1,
    ensures
        outer_total(kids) == listing_bag(es).len(),
    decreases es.len(),
{
    if es.len() > 0 {
        assert(kids.last() == kids[kids.len() - 1]);
        assert(es.last() == es[es.len() - 1]);
        assert forall|i: int| 0 <= i < es.drop_last().len() implies (#[trigger] kids.drop_last()[i]).1
            == es.drop_last()[i].1 by {
            assert(kids.drop_last()[i] == kids[i]);
            assert(es.drop_last()[i] == es[i]);
        }
        lemma_outer_total_is_mass(es.drop_last(), kids.drop_last());
        lemma_copies(es.last().0, es.last().1.amount());
    }
}

/// Mass preservation of `Counter::fmap_flat`: where no key is given an empty map, the
/// result weighs the least common multiple of the child maps' total weights, times what
/// the map that was flattened weighs.
pub proof fn lemma_flat_image_mass<A, B, N: Weight, S, F: FnMut(A) -> HashMap<B, N, S>>(
    func: F,
    f: Map<A, N>,
    es: Seq<(A, N)>,
    kids: Seq<(Map<B, N>, N)>,
    out: Map<B, N>,
)
    requires
        is_listing(es, f),
        yields(func, es, kids),
        bag(out) == flattened(kids),
        !has_empty_child(kids),
        flatten_fits(kids),
    ensures
        mass(out) == lcm_of(child_masses(kids)) * mass(f),
{
    lemma_flattened_mass(kids);
    lemma_outer_total_is_mass(es, kids);
    lemma_listing_bag(es, f);
}

} // verus!
