//! Least common multiples of finite sets of positive numbers, and the call that
//! computes the least common multiple of two machine integers.

use vstd::prelude::*;
use vstd::arithmetic::div_mod::{lemma_fundamental_div_mod, lemma_mod_multiples_basic};
use crate::weights::Weight;

verus! {

/// `c` is positive and every member of `s` is positive and divides `c`.
pub open spec fn common_multiple(c: nat, s: Set<nat>) -> bool {
    &&& c > 0
    &&& forall|x: nat| s.contains(x) ==> x > 0 && c % x == 0
}

/// `m` is a common multiple of `s` and no common multiple of `s` is smaller.
pub open spec fn is_least_common_multiple(m: nat, s: Set<nat>) -> bool {
    &&& common_multiple(m, s)
    &&& forall|c: nat| common_multiple(c, s) ==> m <= c
}

/// The least common multiple of the members of `s`, where they are all positive and
/// have one.
pub open spec fn lcm_of(s: Set<nat>) -> nat {
    choose|m: nat| is_least_common_multiple(m, s)
}

/// The set of the two numbers `a` and `b`.
pub open spec fn pair_of(a: nat, b: nat) -> Set<nat> {
    Set::empty().insert(a).insert(b)
}

/// A set has at most one least common multiple, and `lcm_of` names it.
pub proof fn lemma_lcm_unique(m: nat, s: Set<nat>)
    requires
        is_least_common_multiple(m, s),
    ensures
        lcm_of(s) == m,
{
    let l = lcm_of(s);
    assert(is_least_common_multiple(l, s));
}

/// A set that has a common multiple has a least one, and `lcm_of` names it.
pub proof fn lemma_least_exists(s: Set<nat>, c: nat)
    requires
        common_multiple(c, s),
    ensures
        is_least_common_multiple(lcm_of(s), s),
    decreases c,
{
    if exists|d: nat| d < c && common_multiple(d, s) {
        let d = choose|d: nat| d < c && common_multiple(d, s);
        lemma_least_exists(s, d);
    } else {
        assert(is_least_common_multiple(c, s));
    }
}

/// What is left of one multiple of `x` after division by another is a multiple of `x`.
proof fn lemma_rem_multiple(c: nat, m: nat, x: nat)
    requires
        x > 0,
        m > 0,
        c % x == 0,
        m % x == 0,
    ensures
        (c % m) % x == 0,
{
    let ci = c as int;
    let mi = m as int;
    let xi = x as int;
    lemma_fundamental_div_mod(ci, mi);
    lemma_fundamental_div_mod(ci, xi);
    lemma_fundamental_div_mod(mi, xi);
    let cq = ci / xi;
    let mq = mi / xi;
    let q = ci / mi;
    let t = cq - mq * q;
    assert(ci % mi == t * xi) by (nonlinear_arith)
        requires
            ci == mi * q + ci % mi,
            ci == xi * cq,
            mi == xi * mq,
            t == cq - mq * q,
    ;
    lemma_mod_multiples_basic(t, xi);
}

/// Divisibility is transitive.
pub proof fn lemma_multiple_trans(a: nat, b: nat, c: nat)
    requires
        b > 0,
        c > 0,
        a % b == 0,
        b % c == 0,
    ensures
        a % c == 0,
{
    let ai = a as int;
    let bi = b as int;
    let ci = c as int;
    lemma_fundamental_div_mod(ai, bi);
    lemma_fundamental_div_mod(bi, ci);
    let p = ai / bi;
    let q = bi / ci;
    assert(ai == (q * p) * ci) by (nonlinear_arith)
        requires
            ai == bi * p,
            bi == ci * q,
    ;
    lemma_mod_multiples_basic(q * p, ci);
}

/// Every common multiple of a set is a multiple of its least common multiple.
pub proof fn lemma_least_divides(m: nat, s: Set<nat>, c: nat)
    requires
        is_least_common_multiple(m, s),
        common_multiple(c, s),
    ensures
        c % m == 0,
{
    let r = c % m;
    if r > 0 {
        assert forall|x: nat| s.contains(x) implies x > 0 && r % x == 0 by {
            lemma_rem_multiple(c, m, x);
        }
        assert(common_multiple(r, s));
        assert(r < m) by {
            vstd::arithmetic::div_mod::lemma_mod_bound(c as int, m as int);
        }
    }
}

/// A positive number is the least common multiple of the set that holds only it.
pub proof fn lemma_least_single(x: nat)
    requires
        x > 0,
    ensures
        is_least_common_multiple(x, Set::empty().insert(x)),
{
    let s = Set::<nat>::empty().insert(x);
    assert(x % x == 0) by {
        vstd::arithmetic::div_mod::lemma_mod_self_0(x as int);
    }
    assert forall|c: nat| common_multiple(c, s) implies x <= c by {
        assert(s.contains(x));
        if c < x {
            vstd::arithmetic::div_mod::lemma_small_mod(c, x);
        }
    }
}

/// The least common multiple of a set and one more number is the least common multiple
/// of that number and the set's least common multiple.
pub proof fn lemma_least_extend(acc: nat, s: Set<nat>, x: nat, next: nat)
    requires
        is_least_common_multiple(acc, s),
        is_least_common_multiple(next, pair_of(acc, x)),
    ensures
        is_least_common_multiple(next, s.insert(x)),
{
    let t = s.insert(x);
    let p = pair_of(acc, x);
    assert(p.contains(acc) && p.contains(x));
    assert forall|y: nat| t.contains(y) implies y > 0 && next % y == 0 by {
        if y != x {
            assert(s.contains(y));
            lemma_multiple_trans(next, acc, y);
        }
    }
    assert forall|c: nat| common_multiple(c, t) implies next <= c by {
        assert forall|y: nat| s.contains(y) implies y > 0 && c % y == 0 by {
            assert(t.contains(y));
        }
        assert(common_multiple(c, s));
        lemma_least_divides(acc, s, c);
        assert(t.contains(x));
        assert forall|y: nat| p.contains(y) implies y > 0 && c % y == 0 by {
            assert(y == acc || y == x);
        }
        assert(common_multiple(c, p));
    }
}

/// The numbers that the weights in `v` before position `i` stand for.
pub open spec fn members_before<N: Weight>(v: Seq<N>, i: int) -> Set<nat> {
    Set::new(|n: nat| exists|j: int| 0 <= j < i && (#[trigger] v[j]).amount() == n)
}

/// The numbers that the weights in `v` stand for.
pub open spec fn members<N: Weight>(v: Seq<N>) -> Set<nat> {
    members_before(v, v.len() as int)
}

/// The least common multiple of the weights in `v`, found by taking them in one after
/// the other.
pub fn least_common_multiple<N: Weight>(v: &Vec<N>) -> (m: N)
    requires
        v@.len() > 0,
        exists|c: nat| #[trigger] common_multiple(c, members(v@)) && c <= N::limit(),
    ensures
        is_least_common_multiple(m.amount(), members(v@)),
        m.amount() == lcm_of(members(v@)),
{
    let ghost c = choose|c: nat| #[trigger] common_multiple(c, members(v@)) && c <= N::limit();
    proof {
        assert(members(v@).contains(v@[0].amount()));
        lemma_least_single(v@[0].amount());
        assert(members_before(v@, 1) =~= Set::empty().insert(v@[0].amount()));
    }
    let mut m: N = v[0];
    let mut i: usize = 1;
    while i < v.len()
        invariant
            1 <= i <= v@.len(),
            is_least_common_multiple(m.amount(), members_before(v@, i as int)),
            common_multiple(c, members(v@)),
            c <= N::limit(),
        decreases v@.len() - i,
    {
        let x: N = v[i];
        proof {
            let before = members_before(v@, i as int);
            assert(members(v@).contains(x.amount()));
            assert forall|y: nat| before.contains(y) implies y > 0 && c % y == 0 by {
                assert(members(v@).contains(y));
            }
            assert(common_multiple(c, before));
            lemma_least_divides(m.amount(), before, c);
            assert forall|y: nat| pair_of(m.amount(), x.amount()).contains(y) implies y > 0 && c
                % y == 0 by {
                assert(y == m.amount() || y == x.amount());
            }
            assert(common_multiple(c, pair_of(m.amount(), x.amount())));
        }
        let next: N = m.least_multiple(x);
        proof {
            lemma_least_extend(m.amount(), members_before(v@, i as int), x.amount(), next.amount());
            assert(members_before(v@, i as int).insert(x.amount()) =~= members_before(v@, i + 1));
        }
        m = next;
        i += 1;
    }
    proof {
        lemma_lcm_unique(m.amount(), members(v@));
    }
    m
}

} // verus!
