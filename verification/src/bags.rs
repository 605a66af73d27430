//! Bags (finite multisets) as the common mathematical model of the containers:
//! a sequence is read as the bag of its members, a weighted map as the bag that
//! holds each key as often as its weight says, a set as a bag's support.

use vstd::prelude::*;
use vstd::multiset::*;

verus! {

broadcast use vstd::multiset::group_multiset_axioms;

/// The bag that holds `a` exactly `n` times and nothing else.
pub open spec fn copies<A>(a: A, n: nat) -> Multiset<A>
    decreases n,
{
    if n == 0 {
        Multiset::empty()
    } else {
        copies(a, (n - 1) as nat).insert(a)
    }
}

/// The bag `m` added to itself `n` times.
pub open spec fn scale<A>(m: Multiset<A>, n: nat) -> Multiset<A>
    decreases n,
{
    if n == 0 {
        Multiset::empty()
    } else {
        scale(m, (n - 1) as nat).add(m)
    }
}

/// The sum of the bags `k(a)`, one for every member `a` of `m`, members counted
/// as often as they occur.
pub open spec fn bag_bind<A, B>(m: Multiset<A>, k: spec_fn(A) -> Multiset<B>) -> Multiset<B>
    decreases m.len(),
    via bag_bind_decreases::<A, B>
{
    if m.len() == 0 {
        Multiset::empty()
    } else {
        let a = m.choose();
        bag_bind(m.remove(a), k).add(k(a))
    }
}

/// A bag that has a member gets smaller when the member is taken out.
#[via_fn]
proof fn bag_bind_decreases<A, B>(m: Multiset<A>, k: spec_fn(A) -> Multiset<B>) {
    if m.len() != 0 {
        lemma_remove_len(m, m.choose());
    }
}

/// The image of `m` under `g`, members counted as often as they occur.
pub open spec fn bag_map<A, B>(m: Multiset<A>, g: spec_fn(A) -> B) -> Multiset<B> {
    bag_bind(m, |a: A| Multiset::singleton(g(a)))
}

/// Taking one occurrence of a member out of a bag makes it one smaller.
pub proof fn lemma_remove_len<A>(m: Multiset<A>, a: A)
    requires
        m.count(a) > 0,
    ensures
        m.remove(a).len() == m.len() - 1,
        m.remove(a).insert(a) =~= m,
{
    assert(Multiset::singleton(a).subset_of(m)) by {
        assert forall|v: A| Multiset::singleton(a).count(v) <= m.count(v) by {
            if v != a {
                assert(Multiset::singleton(a).count(v) == 0);
            }
        }
    }
    assert(m.remove(a).insert(a) =~= m);
}

/// `n` copies of a value are `n` members, all of them that value.
pub proof fn lemma_copies<A>(a: A, n: nat)
    ensures
        copies(a, n).len() == n,
        copies(a, n).count(a) == n,
        forall|b: A| b != a ==> copies(a, n).count(b) == 0,
    decreases n,
{
    if n > 0 {
        lemma_copies(a, (n - 1) as nat);
    }
}

/// A bag scaled by `n` has `n` times the members, and `n` times each of them.
pub proof fn lemma_scale<A>(m: Multiset<A>, n: nat)
    ensures
        scale(m, n).len() == n * m.len(),
        forall|a: A| #[trigger] scale(m, n).count(a) == n * m.count(a),
    decreases n,
{
    if n > 0 {
        lemma_scale(m, (n - 1) as nat);
        assert(scale(m, n).len() == n * m.len()) by (nonlinear_arith)
            requires
                scale(m, n).len() == (n - 1) * m.len() + m.len(),
        ;
        assert forall|a: A| #[trigger] scale(m, n).count(a) == n * m.count(a) by {
            assert(scale(m, (n - 1) as nat).count(a) == (n - 1) * m.count(a));
            assert((n - 1) * m.count(a) + m.count(a) == n * m.count(a)) by (nonlinear_arith);
        }
    } else {
        assert(n * m.len() == 0) by (nonlinear_arith)
            requires
                n == 0,
        ;
        assert forall|a: A| #[trigger] scale(m, n).count(a) == n * m.count(a) by {
            assert(n * m.count(a) == 0) by (nonlinear_arith)
                requires
                    n == 0,
            ;
        }
    }
}

/// Binding a bag with one more member adds that member's bag.
pub proof fn lemma_bind_insert<A, B>(m: Multiset<A>, x: A, k: spec_fn(A) -> Multiset<B>)
    ensures
        bag_bind(m.insert(x), k) =~= bag_bind(m, k).add(k(x)),
    decreases m.len(),
{
    let m1 = m.insert(x);
    let a = m1.choose();
    assert(m1.len() == m.len() + 1);
    assert(m1.count(a) > 0);
    if a == x {
        assert(m1.remove(a) =~= m);
    } else {
        assert(m.count(a) > 0);
        let m2 = m.remove(a);
        lemma_remove_len(m, a);
        assert(m1.remove(a) =~= m2.insert(x));
        lemma_bind_insert(m2, x, k);
        lemma_bind_insert(m2, a, k);
        assert(m2.insert(a) =~= m);
        assert(bag_bind(m, k) =~= bag_bind(m2, k).add(k(a)));
        assert(bag_bind(m1, k) =~= bag_bind(m2, k).add(k(x)).add(k(a)));
    }
}

/// Binding distributes over the sum of two bags.
pub proof fn lemma_bind_add<A, B>(m1: Multiset<A>, m2: Multiset<A>, k: spec_fn(A) -> Multiset<B>)
    ensures
        bag_bind(m1.add(m2), k) =~= bag_bind(m1, k).add(bag_bind(m2, k)),
    decreases m2.len(),
{
    if m2.len() == 0 {
        lemma_multiset_empty_len(m2);
        assert(m1.add(m2) =~= m1);
    } else {
        let a = m2.choose();
        let r = m2.remove(a);
        lemma_remove_len(m2, a);
        lemma_bind_add(m1, r, k);
        assert(m1.add(m2) =~= m1.add(r).insert(a));
        lemma_bind_insert(m1.add(r), a, k);
        lemma_bind_insert(r, a, k);
        assert(r.insert(a) =~= m2);
    }
}

/// Binding `n` copies of one member gives that member's bag `n` times.
pub proof fn lemma_bind_copies<A, B>(a: A, n: nat, k: spec_fn(A) -> Multiset<B>)
    ensures
        bag_bind(copies(a, n), k) =~= scale(k(a), n),
    decreases n,
{
    if n == 0 {
        assert(copies(a, n).len() == 0);
    } else {
        lemma_bind_copies(a, (n - 1) as nat, k);
        lemma_bind_insert(copies(a, (n - 1) as nat), a, k);
    }
}

/// Two assignments that agree on the members of a bag bind it to the same bag.
pub proof fn lemma_bind_agree<A, B>(
    m: Multiset<A>,
    k1: spec_fn(A) -> Multiset<B>,
    k2: spec_fn(A) -> Multiset<B>,
)
    requires
        forall|a: A| m.count(a) > 0 ==> k1(a) == k2(a),
    ensures
        bag_bind(m, k1) == bag_bind(m, k2),
    decreases m.len(),
{
    if m.len() != 0 {
        let a = m.choose();
        lemma_remove_len(m, a);
        assert forall|b: A| m.remove(a).count(b) > 0 implies k1(b) == k2(b) by {
            assert(m.count(b) > 0);
        }
        lemma_bind_agree(m.remove(a), k1, k2);
    }
}

/// Scaling distributes over the sum of two bags.
pub proof fn lemma_scale_add<A>(a: Multiset<A>, b: Multiset<A>, n: nat)
    ensures
        scale(a.add(b), n) =~= scale(a, n).add(scale(b, n)),
{
    lemma_scale(a.add(b), n);
    lemma_scale(a, n);
    lemma_scale(b, n);
    assert forall|x: A| scale(a.add(b), n).count(x) == scale(a, n).add(scale(b, n)).count(x) by {
        assert(n * (a.count(x) + b.count(x)) == n * a.count(x) + n * b.count(x))
            by (nonlinear_arith);
    }
}

/// Scaling copies of one value gives copies of it.
pub proof fn lemma_scale_copies<A>(a: A, c: nat, n: nat)
    ensures
        scale(copies(a, c), n) =~= copies(a, n * c),
{
    lemma_scale(copies(a, c), n);
    lemma_copies(a, c);
    lemma_copies(a, n * c);
    assert forall|x: A| scale(copies(a, c), n).count(x) == copies(a, n * c).count(x) by {
        if x != a {
            assert(n * 0 == 0);
        }
    }
}

/// Binding the bag of one member gives that member's bag.
pub proof fn lemma_bind_singleton<A, B>(a: A, k: spec_fn(A) -> Multiset<B>)
    ensures
        bag_bind(Multiset::singleton(a), k) =~= k(a),
{
    let none = Multiset::<A>::empty();
    assert(none.insert(a) =~= Multiset::singleton(a));
    lemma_bind_insert(none, a, k);
    assert(bag_bind(none, k) =~= Multiset::empty());
}

/// The image of a bag under the identity is the bag itself.
pub proof fn lemma_map_identity<A>(m: Multiset<A>)
    ensures
        bag_map(m, |a: A| a) =~= m,
    decreases m.len(),
{
    let k = |a: A| Multiset::singleton((|a: A| a)(a));
    if m.len() != 0 {
        let a = m.choose();
        lemma_remove_len(m, a);
        lemma_map_identity(m.remove(a));
        assert(bag_bind(m, k) =~= bag_bind(m.remove(a), k).add(k(a)));
    }
}

/// Binding twice is binding once with the bound bags bound in turn.
pub proof fn lemma_bind_bind<A, B, C>(
    m: Multiset<A>,
    k1: spec_fn(A) -> Multiset<B>,
    k2: spec_fn(B) -> Multiset<C>,
)
    ensures
        bag_bind(bag_bind(m, k1), k2) =~= bag_bind(m, |a: A| bag_bind(k1(a), k2)),
    decreases m.len(),
{
    let k = |a: A| bag_bind(k1(a), k2);
    if m.len() == 0 {
        assert(bag_bind(m, k1) =~= Multiset::empty());
        assert(bag_bind(Multiset::<B>::empty(), k2) =~= Multiset::empty());
    } else {
        let a = m.choose();
        lemma_remove_len(m, a);
        let rest = m.remove(a);
        lemma_bind_bind(rest, k1, k2);
        lemma_bind_add(bag_bind(rest, k1), k1(a), k2);
        assert(bag_bind(m, k) =~= bag_bind(rest, k).add(k(a)));
    }
}

/// The image of an image is the image under the composed function.
pub proof fn lemma_map_map<A, B, C>(m: Multiset<A>, g: spec_fn(A) -> B, h: spec_fn(B) -> C)
    ensures
        bag_map(bag_map(m, g), h) =~= bag_map(m, |a: A| h(g(a))),
{
    let k1 = |a: A| Multiset::singleton(g(a));
    let k2 = |b: B| Multiset::singleton(h(b));
    let k = |a: A| bag_bind(k1(a), k2);
    let direct = |a: A| Multiset::singleton((|a: A| h(g(a)))(a));
    lemma_bind_bind(m, k1, k2);
    assert forall|a: A| m.count(a) > 0 implies k(a) == direct(a) by {
        lemma_bind_singleton(g(a), k2);
    }
    lemma_bind_agree(m, k, direct);
}

/// The members of `s`, each bound by `k`, summed in the order of `s`.
pub open spec fn rows_sum<A, B>(s: Seq<A>, k: spec_fn(A) -> Multiset<B>) -> Multiset<B>
    decreases s.len(),
{
    if s.len() == 0 {
        Multiset::empty()
    } else {
        rows_sum(s.drop_last(), k).add(k(s.last()))
    }
}

/// Binding the bag of a sequence sums the bags bound to its members.
pub proof fn lemma_bind_seq<A, B>(s: Seq<A>, k: spec_fn(A) -> Multiset<B>)
    ensures
        bag_bind(s.to_multiset(), k) =~= rows_sum(s, k),
    decreases s.len(),
{
    if s.len() == 0 {
        vstd::seq_lib::to_multiset_len(s);
        assert(s.to_multiset().len() == 0);
    } else {
        let rest = s.drop_last();
        lemma_bind_seq(rest, k);
        assert(rest.push(s.last()) =~= s);
        vstd::seq_lib::to_multiset_build(rest, s.last());
        lemma_bind_insert(rest.to_multiset(), s.last(), k);
    }
}

/// The bag of the image of a sequence is the image of its bag.
pub proof fn lemma_map_seq<A, B>(s: Seq<A>, g: spec_fn(A) -> B)
    ensures
        s.map_values(g).to_multiset() =~= bag_map(s.to_multiset(), g),
    decreases s.len(),
{
    let k = |a: A| Multiset::singleton(g(a));
    lemma_bind_seq(s, k);
    if s.len() == 0 {
        vstd::seq_lib::to_multiset_len(s.map_values(g));
        lemma_multiset_empty_len(s.map_values(g).to_multiset());
    } else {
        let rest = s.drop_last();
        lemma_map_seq(rest, g);
        lemma_bind_seq(rest, k);
        assert(rest.map_values(g).push(g(s.last())) =~= s.map_values(g));
        vstd::seq_lib::to_multiset_build(rest.map_values(g), g(s.last()));
    }
}

} // verus!
