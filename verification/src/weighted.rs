//! Weighted maps: a hash map from values to positive counts, read as a bag.

use vstd::prelude::*;
use vstd::multiset::*;
use vstd::std_specs::hash::*;
use vstd::std_specs::iter::IteratorSpec;
use std::collections::HashMap;
use std::hash::BuildHasher;
use crate::bags::{bag_bind, copies, lemma_bind_add, lemma_bind_copies, lemma_copies, scale};
use crate::inner::{faithful_clone, Inner};
use crate::weights::Weight;

verus! {

broadcast use {vstd::multiset::group_multiset_axioms, vstd::std_specs::hash::group_hash_axioms};

/// The weight that `m` gives to `k`: zero where `k` is no key of it.
pub open spec fn weight_of<K, N: Weight>(m: Map<K, N>, k: K) -> nat {
    if m.contains_key(k) {
        m[k].amount()
    } else {
        0
    }
}

/// The bag that holds every key of `m` as often as its weight says.
pub open spec fn bag<K, N: Weight>(m: Map<K, N>) -> Multiset<K> {
    Multiset::from_map(Map::new(|k: K| m.contains_key(k), |k: K| m[k].amount()))
}

/// The sum of all weights of `m`.
pub open spec fn mass<K, N: Weight>(m: Map<K, N>) -> nat {
    bag(m).len()
}

/// `es` lists the entries of `m`, each key once, in some order.
pub open spec fn is_listing<K, N: Weight>(es: Seq<(K, N)>, m: Map<K, N>) -> bool {
    &&& forall|i: int| 0 <= i < es.len() ==> m.contains_key(#[trigger] es[i].0) && m[es[i].0] == es[i].1
    &&& forall|i: int, j: int| 0 <= i < j < es.len() ==> #[trigger] es[i].0 != #[trigger] es[j].0
    &&& forall|k: K| m.contains_key(k) ==> exists|i: int| 0 <= i < es.len() && #[trigger] es[i].0 == k
}

/// The bag that holds, for each entry of `es`, its value as often as its count says.
pub open spec fn listing_bag<K, N: Weight>(es: Seq<(K, N)>) -> Multiset<K>
    decreases es.len(),
{
    if es.len() == 0 {
        Multiset::empty()
    } else {
        listing_bag(es.drop_last()).add(copies(es.last().0, es.last().1.amount()))
    }
}

/// In a bag of a map with finitely many keys, a value occurs as often as its weight says.
pub proof fn lemma_bag_count<K, N: Weight>(m: Map<K, N>, k: K)
    requires
        m.dom().finite(),
    ensures
        bag(m).count(k) == weight_of(m, k),
{
    let w = Map::new(|k: K| m.contains_key(k), |k: K| m[k].amount());
    assert(w.dom() =~= m.dom());
}

/// A value occurs in the bag of a listing as often as the entries under it say together;
/// where it heads no entry, not at all.
pub proof fn lemma_listing_count_absent<K, N: Weight>(es: Seq<(K, N)>, k: K)
    requires
        forall|i: int| 0 <= i < es.len() ==> (#[trigger] es[i]).0 != k,
    ensures
        listing_bag(es).count(k) == 0,
    decreases es.len(),
{
    if es.len() > 0 {
        lemma_listing_count_absent(es.drop_last(), k);
        assert(es.last() == es[es.len() - 1]);
        lemma_copies(es.last().0, es.last().1.amount());
    }
}

/// A map that has a listing has finitely many keys, and its bag is the listing's.
pub proof fn lemma_listing_bag<K, N: Weight>(es: Seq<(K, N)>, m: Map<K, N>)
    requires
        is_listing(es, m),
    ensures
        m.dom().finite(),
        bag(m) =~= listing_bag(es),
    decreases es.len(),
{
    if es.len() == 0 {
        assert(m.dom() =~= Set::empty());
        assert forall|k: K| bag(m).count(k) == 0 by {
            lemma_bag_count(m, k);
        }
    } else {
        let last = es.last();
        assert(es[es.len() - 1] == last);
        let rest = es.drop_last();
        let m0 = m.remove(last.0);
        assert(is_listing(rest, m0)) by {
            assert forall|i: int| 0 <= i < rest.len() implies m0.contains_key(#[trigger] rest[i].0)
                && m0[rest[i].0] == rest[i].1 by {
                assert(rest[i] == es[i]);
            }
            assert forall|k: K| m0.contains_key(k) implies exists|i: int|
                0 <= i < rest.len() && #[trigger] rest[i].0 == k by {
                let i = choose|i: int| 0 <= i < es.len() && #[trigger] es[i].0 == k;
                assert(rest[i] == es[i]);
            }
        }
        lemma_listing_bag(rest, m0);
        assert(m.dom() =~= m0.dom().insert(last.0));
        lemma_copies(last.0, last.1.amount());
        assert forall|k: K| bag(m).count(k) == listing_bag(es).count(k) by {
            lemma_bag_count(m, k);
            lemma_bag_count(m0, k);
            if k == last.0 {
                assert forall|i: int| 0 <= i < rest.len() implies (#[trigger] rest[i]).0 != k by {
                    assert(rest[i] == es[i]);
                }
                lemma_listing_count_absent(rest, k);
            }
        }
    }
}

/// The sum of the bags in `rows`, each taken as often as the entry of `es` at its
/// position weighs.
pub open spec fn weighted_sum<K, N: Weight, B>(es: Seq<(K, N)>, rows: Seq<Multiset<B>>) -> Multiset<
    B,
>
    decreases es.len(),
{
    if es.len() == 0 || rows.len() != es.len() {
        Multiset::empty()
    } else {
        weighted_sum(es.drop_last(), rows.drop_last()).add(
            scale(rows.last(), es.last().1.amount()),
        )
    }
}

/// The position at which `k` heads an entry of `es`.
pub open spec fn index_in<K, N: Weight>(es: Seq<(K, N)>, k: K) -> int {
    choose|i: int| 0 <= i < es.len() && (#[trigger] es[i]).0 == k
}

/// Binding the bag of a listing gives the weighted sum of the bags bound to its keys.
pub proof fn lemma_bind_listing<K, N: Weight, B>(
    es: Seq<(K, N)>,
    rows: Seq<Multiset<B>>,
    k: spec_fn(K) -> Multiset<B>,
)
    requires
        rows.len() == es.len(),
        forall|i: int| 0 <= i < es.len() ==> k((#[trigger] es[i]).0) == rows[i],
    ensures
        bag_bind(listing_bag(es), k) == weighted_sum(es, rows),
    decreases es.len(),
{
    if es.len() == 0 {
        assert(listing_bag(es).len() == 0);
    } else {
        let last = es.last();
        assert(last == es[es.len() - 1]);
        assert forall|i: int| 0 <= i < es.drop_last().len() implies k(
            (#[trigger] es.drop_last()[i]).0,
        ) == rows.drop_last()[i] by {
            assert(es.drop_last()[i] == es[i]);
        }
        lemma_bind_listing(es.drop_last(), rows.drop_last(), k);
        lemma_bind_add(listing_bag(es.drop_last()), copies(last.0, last.1.amount()), k);
        lemma_bind_copies(last.0, last.1.amount(), k);
    }
}

/// One more row adds its scaled bag to a weighted sum.
pub proof fn lemma_weighted_sum_prefix<K, N: Weight, B>(
    es: Seq<(K, N)>,
    rows: Seq<Multiset<B>>,
    i: int,
)
    requires
        0 <= i < es.len(),
        i < rows.len(),
    ensures
        weighted_sum(es.take(i + 1), rows.take(i + 1)) == weighted_sum(
            es.take(i),
            rows.take(i),
        ).add(scale(rows[i], es[i].1.amount())),
{
    assert(es.take(i + 1).drop_last() =~= es.take(i));
    assert(rows.take(i + 1).drop_last() =~= rows.take(i));
    assert(es.take(i + 1).last() == es[i]);
    assert(rows.take(i + 1).last() == rows[i]);
}

/// Two maps with finitely many keys and no weight of zero that have the same bag are
/// the same map.
pub proof fn lemma_bag_determines<K, N: Weight>(m1: Map<K, N>, m2: Map<K, N>)
    requires
        m1.dom().finite(),
        m2.dom().finite(),
        forall|k: K| m1.contains_key(k) ==> (#[trigger] m1[k]).amount() > 0,
        forall|k: K| m2.contains_key(k) ==> (#[trigger] m2[k]).amount() > 0,
        bag(m1) == bag(m2),
    ensures
        m1 == m2,
{
    assert forall|k: K| #[trigger] m1.dom().contains(k) implies m2.dom().contains(k) && m1[k]
        == m2[k] by {
        lemma_bag_count(m1, k);
        lemma_bag_count(m2, k);
        assert(m1[k].amount() > 0);
        N::lemma_weight(m1[k], m2[k]);
    }
    assert forall|k: K| #[trigger] m2.dom().contains(k) implies m1.dom().contains(k) by {
        lemma_bag_count(m1, k);
        lemma_bag_count(m2, k);
        assert(m2[k].amount() > 0);
    }
    assert(m1.dom() =~= m2.dom());
    assert(m1 =~= m2);
}

/// The entries of a weighted map, each key once, in the order in which the map hands
/// them out.
pub fn entries<K: Inner, N: Weight, S: BuildHasher>(m: &HashMap<K, N, S>) -> (es: Vec<(K, N)>)
    requires
        obeys_key_model::<K>(),
        builds_valid_hashers::<S>(),
        faithful_clone::<K>(),
    ensures
        is_listing(es@, m@),
{
    let mut es: Vec<(K, N)> = Vec::new();
    for kv in it: m.iter()
        invariant
            faithful_clone::<K>(),
            es@.len() == it.index(),
            it.seq() == spec_hash_map_iter(m).remaining(),
            forall|i: int|
                0 <= i < es@.len() ==> #[trigger] es@[i] == (
                    *spec_hash_map_iter(m).remaining()[i].0,
                    *spec_hash_map_iter(m).remaining()[i].1,
                ),
    {
        let k = kv.0.clone();
        assert(cloned(*kv.0, k));
        es.push((k, *kv.1));
    }
    proof {
        let v = spec_hash_map_iter(m).remaining();
        assert(es@.len() == v.len());
        assert forall|i: int, j: int| 0 <= i < j < es@.len() implies #[trigger] es@[i].0
            != #[trigger] es@[j].0 by {
            assert(m@.contains_key(*v[i].0) && m@[*v[i].0] == *v[i].1);
            assert(m@.contains_key(*v[j].0) && m@[*v[j].0] == *v[j].1);
            assert(v[i] != v[j]);
        }
        assert forall|k: K| m@.contains_key(k) implies exists|i: int|
            0 <= i < es@.len() && #[trigger] es@[i].0 == k by {
            assert(v.contains((&k, &m@[k])));
            let i = choose|i: int| 0 <= i < v.len() && v[i] == (&k, &m@[k]);
            assert(es@[i].0 == k);
        }
    }
    es
}

/// Adds `c` to the weight of `k` in `m`, entering `k` where it was no key.
pub fn add_weight<K: Inner, N: Weight, S: BuildHasher>(m: &mut HashMap<K, N, S>, k: K, c: N)
    requires
        obeys_key_model::<K>(),
        builds_valid_hashers::<S>(),
        old(m)@.dom().finite(),
        mass(old(m)@) + c.amount() <= N::limit(),
    ensures
        final(m)@.dom() == old(m)@.dom().insert(k),
        forall|x: K| x != k && old(m)@.contains_key(x) ==> final(m)@[x] == old(m)@[x],
        weight_of(final(m)@, k) == weight_of(old(m)@, k) + c.amount(),
        final(m)@.dom().finite(),
        bag(final(m)@) == bag(old(m)@).add(copies(k, c.amount())),
{
    proof {
        lemma_bag_count(m@, k);
    }
    let current: N = match m.get(&k) {
        Some(w) => *w,
        None => N::zero(),
    };
    let ghost before = m@;
    m.insert(k, current.plus(c));
    proof {
        lemma_copies(k, c.amount());
        assert forall|x: K| bag(m@).count(x) == bag(before).add(copies(k, c.amount())).count(x) by {
            lemma_bag_count(m@, x);
            lemma_bag_count(before, x);
        }
        assert(bag(m@) =~= bag(before).add(copies(k, c.amount())));
    }
}

} // verus!
