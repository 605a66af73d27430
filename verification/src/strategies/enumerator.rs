//! The strategy that keeps every outcome, in order and as often as it comes about.

use vstd::prelude::*;
use vstd::arithmetic::div_mod::lemma_fundamental_div_mod_converse;
use rand::Rng;
use crate::inner::{faithful_clone, Inner};
use crate::multiples::{common_multiple, lcm_of, least_common_multiple, members};
use crate::lifted::{computes, computes_with, product};
use crate::random_variable_ranges::{RandomVariableRange, Whole};
use crate::random_variables::RandomVariable;

verus! {

/// Produces all possible outputs of the random process, with repetition, as a vector.
#[derive(Clone, Copy, Debug, Default, Eq, Hash, PartialEq)]
pub struct Enumerator;

/// `out` holds, for each member of `s` in turn, a value that `func` may return for it.
pub open spec fn is_image<A, B, F: Fn(A) -> B>(func: F, s: Seq<A>, out: Seq<B>) -> bool {
    &&& out.len() == s.len()
    &&& forall|i: int| 0 <= i < s.len() ==> call_ensures(func, (s[i],), #[trigger] out[i])
}

/// `out` holds, for each member of `s` in turn and within it for each member of `space`
/// in turn, a value that `func` may return for the two.
pub open spec fn is_product<A, R, B, F: Fn(A, R) -> B>(
    func: F,
    s: Seq<A>,
    space: Seq<R>,
    out: Seq<B>,
) -> bool {
    &&& out.len() == s.len() * space.len()
    &&& forall|k: int|
        0 <= k < out.len() ==> call_ensures(
            func,
            (s[k / (space.len() as int)], space[k % (space.len() as int)]),
            #[trigger] out[k],
        )
}

/// `func` may be called with every member of `s` beside every member of `space`.
pub open spec fn accepts_each<A, R, B, F: Fn(A, R) -> B>(func: F, s: Seq<A>, space: Seq<R>) -> bool {
    forall|i: int, j: int|
        #![trigger s[i], space[j]]
        0 <= i < s.len() && 0 <= j < space.len() ==> call_requires(func, (s[i], space[j]))
}

/// The sequence `s`, `n` times over.
pub open spec fn repeated<B>(s: Seq<B>, n: nat) -> Seq<B>
    decreases n,
{
    if n == 0 {
        Seq::empty()
    } else {
        repeated(s, (n - 1) as nat) + s
    }
}

/// The members of `kids` one after the other, each repeated until it is `l` long.
pub open spec fn spread<B>(kids: Seq<Seq<B>>, l: nat) -> Seq<B>
    decreases kids.len(),
{
    if kids.len() == 0 {
        Seq::empty()
    } else {
        spread(kids.drop_last(), l) + repeated(kids.last(), l / kids.last().len())
    }
}

/// The lengths of the members of `kids`.
pub open spec fn lengths<B>(kids: Seq<Seq<B>>) -> Set<nat> {
    Set::new(|n: nat| exists|i: int| 0 <= i < kids.len() && (#[trigger] kids[i]).len() == n)
}

/// Some member of `kids` is empty.
pub open spec fn has_empty<B>(kids: Seq<Seq<B>>) -> bool {
    exists|i: int| 0 <= i < kids.len() && (#[trigger] kids[i]).len() == 0
}

/// What flattening `kids` gives: nothing where a member is empty, else the members one
/// after the other, each repeated up to the least common multiple of their lengths.
pub open spec fn flattened<B>(kids: Seq<Seq<B>>) -> Seq<B> {
    if has_empty(kids) {
        Seq::empty()
    } else {
        spread(kids, lcm_of(lengths(kids)))
    }
}

/// The least common multiple of the lengths in `kids` is a `usize`: some common
/// multiple of them is one.
pub open spec fn flatten_fits<B>(kids: Seq<Seq<B>>) -> bool {
    !has_empty(kids) ==> exists|c: nat| #[trigger]
        common_multiple(c, lengths(kids)) && c <= usize::MAX
}

/// The vectors of `children` as sequences.
pub open spec fn unwrapped<B>(children: Seq<Vec<B>>) -> Seq<Seq<B>> {
    Seq::new(children.len(), |i: int| children[i]@)
}

/// `kids` holds, for each member of `s` in turn, a sequence that `func` may return for
/// it.
pub open spec fn yields<A, B, F: FnMut(A) -> Vec<B>>(func: F, s: Seq<A>, kids: Seq<Seq<B>>) -> bool {
    &&& kids.len() == s.len()
    &&& forall|i: int| 0 <= i < s.len() ==> may_yield(func, s[i], #[trigger] kids[i])
}

/// `func` may return a vector that holds `kid` for `a`.
pub open spec fn may_yield<A, B, F: FnMut(A) -> Vec<B>>(func: F, a: A, kid: Seq<B>) -> bool {
    exists|c: Vec<B>| #[trigger] call_ensures(func, (a,), c) && c@ == kid
}

/// `out` is what flattening the sequences that `func` gives for the members of `f` may
/// give.
pub open spec fn is_flat_image<A, B, F: FnMut(A) -> Vec<B>>(func: F, f: Seq<A>, out: Seq<B>) -> bool {
    exists|kids: Seq<Seq<B>>| #[trigger] yields(func, f, kids) && out == flattened(kids)
}

/// Spreading one more member appends its repetitions.
pub proof fn lemma_spread_prefix<B>(kids: Seq<Seq<B>>, l: nat, i: int)
    requires
        0 <= i < kids.len(),
    ensures
        spread(kids.take(i + 1), l) == spread(kids.take(i), l) + repeated(
            kids[i],
            l / kids[i].len(),
        ),
{
    assert(kids.take(i + 1).drop_last() =~= kids.take(i));
    assert(kids.take(i + 1).last() == kids[i]);
}

impl Enumerator {
    /// Applies `func` to every outcome, in order.
    pub fn fmap<A: Inner, B: Inner, F: Fn(A) -> B>(f: Vec<A>, func: F) -> (out: Vec<B>)
        requires
            faithful_clone::<A>(),
            forall|i: int| 0 <= i < f@.len() ==> call_requires(func, (f@[i],)),
        ensures
            is_image(func, f@, out@),
            forall|g: spec_fn(A) -> B| #[trigger] computes(func, g) ==> out@ == f@.map_values(g),
    {
        let mut out: Vec<B> = Vec::with_capacity(f.len());
        let mut i: usize = 0;
        while i < f.len()
            invariant
                faithful_clone::<A>(),
                forall|i: int| 0 <= i < f@.len() ==> call_requires(func, (f@[i],)),
                i <= f@.len(),
                out@.len() == i,
                forall|j: int| 0 <= j < i ==> call_ensures(func, (f@[j],), #[trigger] out@[j]),
            decreases f@.len() - i,
        {
            let a = f[i].clone();
            assert(cloned(f@[i as int], a));
            out.push(func(a));
            i += 1;
        }
        proof {
            assert forall|g: spec_fn(A) -> B| #[trigger] computes(func, g) implies out@
                == f@.map_values(g) by {
                assert(out@ =~= f@.map_values(g));
            }
        }
        out
    }

    /// Pairs every outcome with every value of `range` and applies `func` to each pair:
    /// outcomes in their order, and for each outcome the values of the range in theirs.
    /// The generator is not used.
    pub fn fmap_rand_range<
        A: Inner,
        B: Inner,
        R: RandomVariable,
        Rg: RandomVariableRange<R>,
        G: Rng,
        F: Fn(A, R) -> B,
    >(f: Vec<A>, range: Rg, rng: &mut G, func: F) -> (out: Vec<B>)
        requires
            faithful_clone::<A>(),
            accepts_each(func, f@, range.sample_space()),
            f@.len() > 0 ==> range.sample_space().len() <= usize::MAX,
        ensures
            *final(rng) == *old(rng),
            is_product(func, f@, range.sample_space(), out@),
            forall|g: spec_fn(A, R) -> B| #[trigger]
                computes_with(func, g) ==> out@ == product(f@, range.sample_space(), g),
    {
        let ghost space = range.sample_space();
        let mut out: Vec<B> = Vec::new();
        let mut i: usize = 0;
        proof {
            assert(0 * space.len() == 0);
        }
        while i < f.len()
            invariant
                faithful_clone::<A>(),
                space == range.sample_space(),
                accepts_each(func, f@, space),
                f@.len() > 0 ==> space.len() <= usize::MAX,
                i <= f@.len(),
                out@.len() == i * space.len(),
                forall|k: int|
                    0 <= k < out@.len() ==> call_ensures(
                        func,
                        (f@[k / (space.len() as int)], space[k % (space.len() as int)]),
                        #[trigger] out@[k],
                    ),
            decreases f@.len() - i,
        {
            let n: usize = range.sample_space_len().unwrap();
            let mut j: usize = 0;
            while j < n
                invariant
                    faithful_clone::<A>(),
                    space == range.sample_space(),
                    accepts_each(func, f@, space),
                    n == space.len(),
                    i < f@.len(),
                    j <= n,
                    out@.len() == i * space.len() + j,
                    forall|k: int|
                        0 <= k < out@.len() ==> call_ensures(
                            func,
                            (f@[k / (space.len() as int)], space[k % (space.len() as int)]),
                            #[trigger] out@[k],
                        ),
                decreases n - j,
            {
                let a = f[i].clone();
                let r = range.sample_space_at(j);
                proof {
                    assert(cloned(f@[i as int], a));
                    let k = i * space.len() + j;
                    lemma_fundamental_div_mod_converse(k as int, space.len() as int, i as int, j as int);
                    assert(call_requires(func, (f@[i as int], space[j as int])));
                }
                let b = func(a, r);
                out.push(b);
                j += 1;
            }
            proof {
                assert(i * space.len() + space.len() == (i + 1) * space.len()) by (nonlinear_arith);
            }
            i += 1;
        }
        proof {
            assert forall|g: spec_fn(A, R) -> B| #[trigger] computes_with(func, g) implies out@
                == product(f@, space, g) by {
                assert(out@ =~= product(f@, space, g));
            }
        }
        out
    }

    /// Pairs every outcome with every possible value of `R` and applies `func` to each
    /// pair: outcomes in their order, and for each outcome the sample space in its order.
    /// The generator is not used.
    pub fn fmap_rand<A: Inner, B: Inner, R: RandomVariable, G: Rng, F: Fn(A, R) -> B>(
        f: Vec<A>,
        rng: &mut G,
        func: F,
    ) -> (out: Vec<B>)
        requires
            faithful_clone::<A>(),
            accepts_each(func, f@, R::sample_space()),
            f@.len() > 0 ==> R::sample_space().len() <= usize::MAX,
        ensures
            *final(rng) == *old(rng),
            is_product(func, f@, R::sample_space(), out@),
            forall|g: spec_fn(A, R) -> B| #[trigger]
                computes_with(func, g) ==> out@ == product(f@, R::sample_space(), g),
    {
        Self::fmap_rand_range(f, Whole::<R>::new(), rng, func)
    }

    /// Flattens sequences into one: each is repeated up to the least common multiple of
    /// all their lengths, so that each counts alike however many members it has, and the
    /// repetitions follow each other in the order of the sequences. Where one of them
    /// is empty, so is the result.
    pub fn flatten<B: Inner>(children: Vec<Vec<B>>) -> (out: Vec<B>)
        requires
            faithful_clone::<B>(),
            flatten_fits(unwrapped(children@)),
        ensures
            out@ == flattened(unwrapped(children@)),
    {
        let ghost kids = unwrapped(children@);
        let mut lens: Vec<usize> = Vec::with_capacity(children.len());
        let mut i: usize = 0;
        while i < children.len()
            invariant
                kids == unwrapped(children@),
                i <= children@.len(),
                lens@.len() == i,
                forall|j: int| 0 <= j < i ==> (#[trigger] lens@[j]) == kids[j].len() && lens@[j] > 0,
            decreases children@.len() - i,
        {
            let n: usize = children[i].len();
            if n == 0 {
                proof {
                    assert(kids[i as int].len() == 0);
                    assert(has_empty(kids));
                }
                return Vec::new();
            }
            lens.push(n);
            i += 1;
        }
        proof {
            assert(!has_empty(kids)) by {
                if has_empty(kids) {
                    let j = choose|j: int| 0 <= j < kids.len() && (#[trigger] kids[j]).len() == 0;
                    assert(lens@[j] == kids[j].len());
                }
            }
        }
        if lens.len() == 0 {
            return Vec::new();
        }
        proof {
            assert(members(lens@) =~= lengths(kids)) by {
                assert forall|n: nat| members(lens@).contains(n) implies lengths(kids).contains(
                    n,
                ) by {
                    let j = choose|j: int| 0 <= j < lens@.len() && (#[trigger] lens@[j]) as nat == n;
                    assert(kids[j].len() == n);
                }
                assert forall|n: nat| lengths(kids).contains(n) implies members(lens@).contains(
                    n,
                ) by {
                    let j = choose|j: int| 0 <= j < kids.len() && (#[trigger] kids[j]).len() == n;
                    assert(lens@[j] as nat == n);
                }
            }
            assert(kids.take(0) =~= Seq::empty());
        }
        let l: usize = least_common_multiple(&lens);
        let mut out: Vec<B> = Vec::new();
        let mut i: usize = 0;
        while i < children.len()
            invariant
                faithful_clone::<B>(),
                kids == unwrapped(children@),
                i <= children@.len(),
                lens@.len() == children@.len(),
                forall|j: int|
                    0 <= j < lens@.len() ==> (#[trigger] lens@[j]) == kids[j].len() && lens@[j] > 0,
                out@ == spread(kids.take(i as int), l as nat),
            decreases children@.len() - i,
        {
            let times: usize = l / lens[i];
            let ghost base = out@;
            let ghost kid = kids[i as int];
            proof {
                lemma_spread_prefix(kids, l as nat, i as int);
                assert(base + Seq::<B>::empty() =~= base);
            }
            let mut t: usize = 0;
            while t < times
                invariant
                    faithful_clone::<B>(),
                    i < children@.len(),
                    kid == children@[i as int]@,
                    t <= times,
                    out@ == base + repeated(kid, t as nat),
                decreases times - t,
            {
                let ghost round = out@;
                let mut e: usize = 0;
                proof {
                    assert(kid.take(0) =~= Seq::empty());
                    assert(round + Seq::<B>::empty() =~= round);
                }
                while e < children[i].len()
                    invariant
                        faithful_clone::<B>(),
                        i < children@.len(),
                        kid == children@[i as int]@,
                        e <= kid.len(),
                        out@ == round + kid.take(e as int),
                    decreases kid.len() - e,
                {
                    let b = children[i][e].clone();
                    proof {
                        assert(cloned(kid[e as int], b));
                        assert(kid.take(e + 1) =~= kid.take(e as int).push(b));
                        assert(round + kid.take(e + 1) =~= (round + kid.take(e as int)).push(b));
                    }
                    out.push(b);
                    e += 1;
                }
                proof {
                    assert(kid.take(e as int) =~= kid);
                    assert(base + repeated(kid, (t + 1) as nat) =~= (base + repeated(
                        kid,
                        t as nat,
                    )) + kid);
                }
                t += 1;
            }
            i += 1;
        }
        proof {
            assert(kids.take(i as int) =~= kids);
        }
        out
    }

    /// Replaces every outcome by the sequence that `func` gives for it and flattens the
    /// result, as `flatten` does.
    pub fn fmap_flat<A: Inner, B: Inner, F: FnMut(A) -> Vec<B>>(f: Vec<A>, mut func: F) -> (out:
        Vec<B>)
        requires
            faithful_clone::<A>(),
            faithful_clone::<B>(),
            forall|i: int| 0 <= i < f@.len() ==> call_requires(func, (f@[i],)),
            forall|kids: Seq<Seq<B>>| #[trigger] yields(func, f@, kids) ==> flatten_fits(kids),
        ensures
            is_flat_image(func, f@, out@),
    {
        let ghost given = func;
        let mut children: Vec<Vec<B>> = Vec::with_capacity(f.len());
        let mut i: usize = 0;
        while i < f.len()
            invariant
                func == given,
                faithful_clone::<A>(),
                forall|i: int| 0 <= i < f@.len() ==> call_requires(func, (f@[i],)),
                i <= f@.len(),
                children@.len() == i,
                forall|j: int| 0 <= j < i ==> call_ensures(func, (f@[j],), #[trigger] children@[j]),
            decreases f@.len() - i,
        {
            let a = f[i].clone();
            proof {
                assert(cloned(f@[i as int], a));
            }
            let child = func(a);
            children.push(child);
            i += 1;
        }
        let ghost kids = unwrapped(children@);
        proof {
            assert(yields(func, f@, kids)) by {
                assert forall|j: int| 0 <= j < f@.len() implies may_yield(
                    func,
                    f@[j],
                    #[trigger] kids[j],
                ) by {
                    assert(call_ensures(func, (f@[j],), children@[j]));
                }
            }
        }
        Self::flatten(children)
    }
}

} // verus!
