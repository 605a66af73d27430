//! The strategy that keeps every outcome once, and nothing of how often it comes about.

use vstd::prelude::*;
use vstd::std_specs::hash::*;
use vstd::std_specs::iter::IteratorSpec;
use std::collections::HashSet;
use std::collections::hash_map::RandomState;
use std::hash::BuildHasher;
use std::marker::PhantomData;
use rand::Rng;
use crate::inner::{faithful_clone, Inner};
use crate::lifted::{accepts_all, is_row};
use crate::random_variable_ranges::{RandomVariableRange, Whole};
use crate::random_variables::RandomVariable;

verus! {

broadcast use vstd::std_specs::hash::group_hash_axioms;

/// Produces all possible outputs of the random process, without repetition, stored in a
/// hash set.
#[derive(Debug, Default, Eq, Hash, PartialEq)]
pub struct UniqueEnumerator<S: BuildHasher + Default = RandomState> {
    phantom: PhantomData<S>,
}

impl<S: BuildHasher + Default> Clone for UniqueEnumerator<S> {
    fn clone(&self) -> (c: Self) {
        UniqueEnumerator { phantom: PhantomData }
    }
}

impl<S: BuildHasher + Default> Copy for UniqueEnumerator<S> {

}

/// The union of the sets `k(a)`, one for every member `a` of `s`.
pub open spec fn set_bind<A, B>(s: Set<A>, k: spec_fn(A) -> Set<B>) -> Set<B> {
    Set::new(|b: B| exists|a: A| s.contains(a) && #[trigger] k(a).contains(b))
}

/// The union of the members of `rows`.
pub open spec fn union_of<B>(rows: Seq<Set<B>>) -> Set<B> {
    Set::new(|b: B| exists|i: int| 0 <= i < rows.len() && (#[trigger] rows[i]).contains(b))
}

/// The position at which `a` stands in `es`.
pub open spec fn position<A>(es: Seq<A>, a: A) -> int {
    choose|i: int| 0 <= i < es.len() && es[i] == a
}

/// `h` gives, for every member of `s`, a value that `func` may return for it.
pub open spec fn picked_by<A, B, F: Fn(A) -> B>(func: F, s: Set<A>, h: spec_fn(A) -> B) -> bool {
    forall|a: A| s.contains(a) ==> call_ensures(func, (a,), #[trigger] h(a))
}

/// `row` is the set of the members of some row of `func` for `a` over `space`.
pub open spec fn is_row_set<A, R, B, F: Fn(A, R) -> B>(
    func: F,
    a: A,
    space: Seq<R>,
    row: Set<B>,
) -> bool {
    exists|bs: Seq<B>| #[trigger] is_row(func, a, space, bs) && row == bs.to_set()
}

/// `k` gives, for every member of `s`, the set of a row of `func` for it over `space`.
pub open spec fn row_sets_by<A, R, B, F: Fn(A, R) -> B>(
    func: F,
    s: Set<A>,
    space: Seq<R>,
    k: spec_fn(A) -> Set<B>,
) -> bool {
    forall|a: A| s.contains(a) ==> is_row_set(func, a, space, #[trigger] k(a))
}

/// `func` may return a hash set that holds `kid` for `a`.
pub open spec fn may_yield<A, B, S, F: FnMut(A) -> HashSet<B, S>>(func: F, a: A, kid: Set<B>) -> bool {
    exists|c: HashSet<B, S>| #[trigger] call_ensures(func, (a,), c) && c@ == kid
}

/// `k` gives, for every member of `s`, a set that `func` may return for it.
pub open spec fn yields<A, B, S, F: FnMut(A) -> HashSet<B, S>>(
    func: F,
    s: Set<A>,
    k: spec_fn(A) -> Set<B>,
) -> bool {
    forall|a: A| s.contains(a) ==> may_yield(func, a, #[trigger] k(a))
}

/// `out` is what mapping `func` over `f` may give: the image of `f` under a choice of
/// results of `func`.
pub open spec fn is_image<A, B, F: Fn(A) -> B>(func: F, f: Set<A>, out: Set<B>) -> bool {
    exists|h: spec_fn(A) -> B| #[trigger] picked_by(func, f, h) && out == f.map(h)
}

/// `out` is what mapping `func` over `f` beside `space` may give: the union, over the
/// members of `f`, of the sets of rows of `func` for them.
pub open spec fn is_product<A, R, B, F: Fn(A, R) -> B>(
    func: F,
    f: Set<A>,
    space: Seq<R>,
    out: Set<B>,
) -> bool {
    exists|k: spec_fn(A) -> Set<B>| #[trigger] row_sets_by(func, f, space, k) && out == set_bind(f, k)
}

/// `out` is the union of sets that `func` may give for the members of `f`.
pub open spec fn is_flat_image<A, B, S, F: FnMut(A) -> HashSet<B, S>>(
    func: F,
    f: Set<A>,
    out: Set<B>,
) -> bool {
    exists|k: spec_fn(A) -> Set<B>| #[trigger] yields(func, f, k) && out == set_bind(f, k)
}

/// In a sequence without repetitions, every member stands at the position that
/// `position` names.
pub proof fn lemma_position<A>(es: Seq<A>, i: int)
    requires
        es.no_duplicates(),
        0 <= i < es.len(),
    ensures
        position(es, es[i]) == i,
{
    let p = position(es, es[i]);
    assert(0 <= p < es.len() && es[p] == es[i]);
}

/// The union over the members of a listed set is the union of the rows listed beside
/// them.
pub proof fn lemma_bind_rows<A, B>(es: Seq<A>, rows: Seq<Set<B>>, k: spec_fn(A) -> Set<B>)
    requires
        rows.len() == es.len(),
        forall|i: int| 0 <= i < es.len() ==> k(#[trigger] es[i]) == rows[i],
    ensures
        set_bind(es.to_set(), k) =~= union_of(rows),
{
    assert forall|b: B| set_bind(es.to_set(), k).contains(b) implies union_of(rows).contains(b) by {
        let a = choose|a: A| es.to_set().contains(a) && #[trigger] k(a).contains(b);
        let i = choose|i: int| 0 <= i < es.len() && es[i] == a;
        assert(rows[i].contains(b));
    }
    assert forall|b: B| union_of(rows).contains(b) implies set_bind(es.to_set(), k).contains(b) by {
        let i = choose|i: int| 0 <= i < rows.len() && (#[trigger] rows[i]).contains(b);
        assert(es.to_set().contains(es[i]));
        assert(k(es[i]).contains(b));
    }
}

/// One more row joins the union.
pub proof fn lemma_union_push<B>(rows: Seq<Set<B>>, row: Set<B>)
    ensures
        union_of(rows.push(row)) =~= union_of(rows).union(row),
{
    let more = rows.push(row);
    assert forall|b: B| union_of(more).contains(b) implies union_of(rows).union(row).contains(b) by {
        let i = choose|i: int| 0 <= i < more.len() && (#[trigger] more[i]).contains(b);
        if i < rows.len() {
            assert(rows[i].contains(b));
        }
    }
    assert forall|b: B| union_of(rows).union(row).contains(b) implies union_of(more).contains(b) by {
        if row.contains(b) {
            assert(more[rows.len() as int].contains(b));
        } else {
            let i = choose|i: int| 0 <= i < rows.len() && (#[trigger] rows[i]).contains(b);
            assert(more[i].contains(b));
        }
    }
}

/// The members of a hash set, each once, in the order in which the set hands them out.
pub fn elements<K: Inner, S: BuildHasher>(s: &HashSet<K, S>) -> (es: Vec<K>)
    requires
        obeys_key_model::<K>(),
        builds_valid_hashers::<S>(),
        faithful_clone::<K>(),
    ensures
        es@.no_duplicates(),
        es@.to_set() == s@,
{
    let mut es: Vec<K> = Vec::new();
    for k in it: s.iter()
        invariant
            faithful_clone::<K>(),
            es@.len() == it.index(),
            it.seq() == spec_hash_keys_iter(s).remaining(),
            forall|i: int|
                0 <= i < es@.len() ==> #[trigger] es@[i] == *spec_hash_keys_iter(s).remaining()[i],
    {
        let c = k.clone();
        assert(cloned(*k, c));
        es.push(c);
    }
    proof {
        let v = spec_hash_keys_iter(s).remaining();
        assert(es@.len() == v.len());
        assert(es@ =~= v.unref());
        assert forall|i: int, j: int| 0 <= i < es@.len() && 0 <= j < es@.len() && i != j implies es@[i]
            != es@[j] by {
            assert(v[i] != v[j]);
        }
    }
    es
}

/// A sequence with one more member has that member more in its set.
proof fn lemma_to_set_push<B>(bs: Seq<B>, b: B)
    ensures
        bs.push(b).to_set() =~= bs.to_set().insert(b),
{
    let more = bs.push(b);
    assert forall|x: B| more.to_set().contains(x) implies bs.to_set().insert(b).contains(x) by {
        let i = choose|i: int| 0 <= i < more.len() && more[i] == x;
        if i < bs.len() {
            assert(bs[i] == x);
        }
    }
    assert forall|x: B| bs.to_set().insert(b).contains(x) implies more.to_set().contains(x) by {
        if x == b {
            assert(more[bs.len() as int] == x);
        } else {
            let i = choose|i: int| 0 <= i < bs.len() && bs[i] == x;
            assert(more[i] == x);
        }
    }
}

impl<S: BuildHasher + Default> UniqueEnumerator<S> {
    /// Applies `func` to every outcome and keeps each result once.
    pub fn fmap<A: Inner, B: Inner, F: Fn(A) -> B>(f: HashSet<A, S>, func: F) -> (out: HashSet<B, S>)
        requires
            obeys_key_model::<A>(),
            obeys_key_model::<B>(),
            builds_valid_hashers::<S>(),
            faithful_clone::<A>(),
            forall|a: A| f@.contains(a) ==> call_requires(func, (a,)),
        ensures
            is_image(func, f@, out@),
    {
        let es = elements(&f);
        let mut out: HashSet<B, S> = HashSet::default();
        let ghost bs: Seq<B> = Seq::empty();
        proof {
            assert(bs.to_set() =~= Set::empty());
        }
        let mut i: usize = 0;
        while i < es.len()
            invariant
                obeys_key_model::<B>(),
                builds_valid_hashers::<S>(),
                faithful_clone::<A>(),
                es@.to_set() == f@,
                forall|a: A| f@.contains(a) ==> call_requires(func, (a,)),
                i <= es@.len(),
                bs.len() == i,
                forall|j: int| 0 <= j < i ==> call_ensures(func, (es@[j],), #[trigger] bs[j]),
                out@ == bs.to_set(),
            decreases es@.len() - i,
        {
            let a = es[i].clone();
            proof {
                assert(cloned(es@[i as int], a));
                assert(es@.to_set().contains(es@[i as int]));
            }
            let b = func(a);
            out.insert(b);
            proof {
                lemma_to_set_push(bs, b);
                bs = bs.push(b);
            }
            i += 1;
        }
        proof {
            let h = |a: A| bs[position(es@, a)];
            assert forall|j: int| 0 <= j < es@.len() implies h(#[trigger] es@[j]) == bs[j] by {
                lemma_position(es@, j);
            }
            assert(picked_by(func, f@, h)) by {
                assert forall|a: A| f@.contains(a) implies call_ensures(func, (a,), #[trigger] h(a)) by {
                    let j = choose|j: int| 0 <= j < es@.len() && es@[j] == a;
                    assert(h(es@[j]) == bs[j]);
                }
            }
            assert(out@ =~= f@.map(h)) by {
                assert forall|b: B| out@.contains(b) implies f@.map(h).contains(b) by {
                    let j = choose|j: int| 0 <= j < bs.len() && bs[j] == b;
                    assert(h(es@[j]) == bs[j]);
                    assert(es@.to_set().contains(es@[j]));
                }
                assert forall|b: B| f@.map(h).contains(b) implies out@.contains(b) by {
                    let a = choose|a: A| f@.contains(a) && b == h(a);
                    let j = choose|j: int| 0 <= j < es@.len() && es@[j] == a;
                    assert(h(es@[j]) == bs[j]);
                    assert(bs.to_set().contains(bs[j]));
                }
            }
        }
        out
    }

    /// Pairs every outcome with every value of `range`, applies `func` to each pair and
    /// keeps each result once. The generator is not used.
    pub fn fmap_rand_range<
        A: Inner,
        B: Inner,
        R: RandomVariable,
        Rg: RandomVariableRange<R>,
        G: Rng,
        F: Fn(A, R) -> B,
    >(f: HashSet<A, S>, range: Rg, rng: &mut G, func: F) -> (out: HashSet<B, S>)
        requires
            obeys_key_model::<A>(),
            obeys_key_model::<B>(),
            builds_valid_hashers::<S>(),
            faithful_clone::<A>(),
            accepts_all(func, f@, range.sample_space()),
            f@ != Set::<A>::empty() ==> range.sample_space().len() <= usize::MAX,
        ensures
            *final(rng) == *old(rng),
            is_product(func, f@, range.sample_space(), out@),
    {
        let es = elements(&f);
        let mut out: HashSet<B, S> = HashSet::default();
        let ghost space = range.sample_space();
        let ghost rows: Seq<Set<B>> = Seq::empty();
        proof {
            assert(union_of(rows) =~= Set::empty());
        }
        let mut i: usize = 0;
        while i < es.len()
            invariant
                obeys_key_model::<B>(),
                builds_valid_hashers::<S>(),
                faithful_clone::<A>(),
                es@.to_set() == f@,
                space == range.sample_space(),
                accepts_all(func, f@, space),
                f@ != Set::<A>::empty() ==> space.len() <= usize::MAX,
                i <= es@.len(),
                rows.len() == i,
                forall|t: int| 0 <= t < i ==> is_row_set(func, es@[t], space, #[trigger] rows[t]),
                out@ == union_of(rows),
            decreases es@.len() - i,
        {
            proof {
                assert(es@.to_set().contains(es@[i as int]));
            }
            let n: usize = range.sample_space_len().unwrap();
            let ghost base = out@;
            let ghost bs: Seq<B> = Seq::empty();
            proof {
                assert(bs.to_set() =~= Set::empty());
                assert(base.union(Set::empty()) =~= base);
            }
            let mut j: usize = 0;
            while j < n
                invariant
                    obeys_key_model::<B>(),
                    builds_valid_hashers::<S>(),
                    faithful_clone::<A>(),
                    i < es@.len(),
                    f@.contains(es@[i as int]),
                    space == range.sample_space(),
                    accepts_all(func, f@, space),
                    n == space.len(),
                    j <= n,
                    bs.len() == j,
                    forall|t: int|
                        0 <= t < j ==> call_ensures(func, (es@[i as int], space[t]), #[trigger] bs[t]),
                    out@ == base.union(bs.to_set()),
                decreases n - j,
            {
                let a = es[i].clone();
                proof {
                    assert(cloned(es@[i as int], a));
                }
                let r = range.sample_space_at(j);
                let b = func(a, r);
                out.insert(b);
                proof {
                    lemma_to_set_push(bs, b);
                    assert(base.union(bs.to_set()).insert(b) =~= base.union(bs.push(b).to_set()));
                    bs = bs.push(b);
                }
                j += 1;
            }
            proof {
                assert(is_row(func, es@[i as int], space, bs));
                lemma_union_push(rows, bs.to_set());
                rows = rows.push(bs.to_set());
            }
            i += 1;
        }
        proof {
            let k = |a: A| rows[position(es@, a)];
            assert forall|t: int| 0 <= t < es@.len() implies k(#[trigger] es@[t]) == rows[t] by {
                lemma_position(es@, t);
            }
            lemma_bind_rows(es@, rows, k);
            assert(row_sets_by(func, f@, space, k)) by {
                assert forall|a: A| f@.contains(a) implies is_row_set(
                    func,
                    a,
                    space,
                    #[trigger] k(a),
                ) by {
                    let t = choose|t: int| 0 <= t < es@.len() && es@[t] == a;
                    assert(k(es@[t]) == rows[t]);
                }
            }
        }
        out
    }

    /// Pairs every outcome with every possible value of `R`, applies `func` to each pair
    /// and keeps each result once. The generator is not used.
    pub fn fmap_rand<A: Inner, B: Inner, R: RandomVariable, G: Rng, F: Fn(A, R) -> B>(
        f: HashSet<A, S>,
        rng: &mut G,
        func: F,
    ) -> (out: HashSet<B, S>)
        requires
            obeys_key_model::<A>(),
            obeys_key_model::<B>(),
            builds_valid_hashers::<S>(),
            faithful_clone::<A>(),
            accepts_all(func, f@, R::sample_space()),
            f@ != Set::<A>::empty() ==> R::sample_space().len() <= usize::MAX,
        ensures
            *final(rng) == *old(rng),
            is_product(func, f@, R::sample_space(), out@),
    {
        Self::fmap_rand_range(f, Whole::<R>::new(), rng, func)
    }

    /// Replaces every outcome by the set that `func` gives for it and keeps each member
    /// of those sets once.
    pub fn fmap_flat<A: Inner, B: Inner, F: FnMut(A) -> HashSet<B, S>>(
        f: HashSet<A, S>,
        mut func: F,
    ) -> (out: HashSet<B, S>)
        requires
            obeys_key_model::<A>(),
            obeys_key_model::<B>(),
            builds_valid_hashers::<S>(),
            faithful_clone::<A>(),
            faithful_clone::<B>(),
            forall|a: A| f@.contains(a) ==> call_requires(func, (a,)),
        ensures
            is_flat_image(func, f@, out@),
    {
        let ghost given = func;
        let es = elements(&f);
        let mut out: HashSet<B, S> = HashSet::default();
        let ghost rows: Seq<Set<B>> = Seq::empty();
        proof {
            assert(union_of(rows) =~= Set::empty());
        }
        let mut i: usize = 0;
        while i < es.len()
            invariant
                func == given,
                obeys_key_model::<B>(),
                builds_valid_hashers::<S>(),
                faithful_clone::<A>(),
                faithful_clone::<B>(),
                es@.to_set() == f@,
                forall|a: A| f@.contains(a) ==> call_requires(func, (a,)),
                i <= es@.len(),
                rows.len() == i,
                forall|t: int| 0 <= t < i ==> may_yield(func, es@[t], #[trigger] rows[t]),
                out@ == union_of(rows),
            decreases es@.len() - i,
        {
            let a = es[i].clone();
            proof {
                assert(cloned(es@[i as int], a));
                assert(es@.to_set().contains(es@[i as int]));
            }
            let child = func(a);
            let cs = elements(&child);
            let ghost base = out@;
            proof {
                assert(cs@.take(0).to_set() =~= Set::empty());
                assert(base.union(Set::empty()) =~= base);
            }
            let mut e: usize = 0;
            while e < cs.len()
                invariant
                    obeys_key_model::<B>(),
                    builds_valid_hashers::<S>(),
                    faithful_clone::<B>(),
                    e <= cs@.len(),
                    out@ == base.union(cs@.take(e as int).to_set()),
                decreases cs@.len() - e,
            {
                let b = cs[e].clone();
                proof {
                    assert(cloned(cs@[e as int], b));
                    lemma_to_set_push(cs@.take(e as int), b);
                    assert(cs@.take(e + 1) =~= cs@.take(e as int).push(b));
                    assert(base.union(cs@.take(e as int).to_set()).insert(b) =~= base.union(
                        cs@.take(e + 1).to_set(),
                    ));
                }
                out.insert(b);
                e += 1;
            }
            proof {
                assert(cs@.take(e as int) =~= cs@);
                assert(call_ensures(func, (es@[i as int],), child));
                lemma_union_push(rows, child@);
                rows = rows.push(child@);
            }
            i += 1;
        }
        proof {
            let k = |a: A| rows[position(es@, a)];
            assert forall|t: int| 0 <= t < es@.len() implies k(#[trigger] es@[t]) == rows[t] by {
                lemma_position(es@, t);
            }
            lemma_bind_rows(es@, rows, k);
            assert(yields(func, f@, k)) by {
                assert forall|a: A| f@.contains(a) implies may_yield(func, a, #[trigger] k(a)) by {
                    let t = choose|t: int| 0 <= t < es@.len() && es@[t] == a;
                    assert(k(es@[t]) == rows[t]);
                }
            }
        }
        out
    }
}

} // verus!
