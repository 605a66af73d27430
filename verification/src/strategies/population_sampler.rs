//! The strategy that keeps a bounded number of outcomes, dropped at random where the
//! bound is passed.

use vstd::prelude::*;
use vstd::seq_lib::{to_multiset_remove, to_multiset_update};
use rand::Rng;
use crate::inner::{faithful_clone, Inner};
use crate::random_variable_ranges::RandomVariableRange;
use crate::random_variables::{draw_below, RandomVariable};
use crate::strategies::enumerator::{accepts_each, is_image, is_product, Enumerator};

verus! {

broadcast use vstd::multiset::group_multiset_axioms;

/// Produces a random subset (technically, submultiset) of possible outputs of the
/// random process, of at most `N` members.
#[derive(Clone, Copy, Debug, Default, Eq, Hash, PartialEq)]
pub struct PopulationSampler<const N: usize>;

/// The sequence `s` without the member at position `i`: the last member takes its place.
pub open spec fn without<T>(s: Seq<T>, i: int) -> Seq<T> {
    s.update(i, s.last()).drop_last()
}

/// What is left of `s` after the members at the positions `drops` were dropped one
/// after the other, each position counted in what the earlier drops left.
pub open spec fn dropped<T>(s: Seq<T>, drops: Seq<int>) -> Seq<T>
    decreases drops.len(),
{
    if drops.len() == 0 {
        s
    } else {
        without(dropped(s, drops.drop_last()), drops.last())
    }
}

/// Every position in `drops` names a member of what the earlier drops left of a sequence
/// of `len` members.
pub open spec fn can_drop(len: nat, drops: Seq<int>) -> bool {
    forall|i: int| 0 <= i < drops.len() ==> 0 <= #[trigger] drops[i] < len - i
}

/// `out` is what is left of `full` after members were dropped, one at a time, until at
/// most `n` stayed: no member where `full` is within the bound, and else as many as
/// `full` has beyond it.
pub open spec fn is_shrunk<T>(out: Seq<T>, full: Seq<T>, n: nat) -> bool {
    exists|drops: Seq<int>|
        {
            &&& #[trigger] can_drop(full.len(), drops)
            &&& drops.len() == if full.len() > n {
                full.len() - n
            } else {
                0
            }
            &&& out == dropped(full, drops)
        }
}

/// What is left after drops is as much shorter as there were drops, and holds no
/// member more often than the whole did.
pub proof fn lemma_dropped<T>(s: Seq<T>, drops: Seq<int>)
    requires
        can_drop(s.len(), drops),
    ensures
        dropped(s, drops).len() == s.len() - drops.len(),
        dropped(s, drops).to_multiset().subset_of(s.to_multiset()),
    decreases drops.len(),
{
    if drops.len() > 0 {
        let earlier = drops.drop_last();
        assert(can_drop(s.len(), earlier)) by {
            assert forall|i: int| 0 <= i < earlier.len() implies 0 <= #[trigger] earlier[i] < s.len()
                - i by {
                assert(earlier[i] == drops[i]);
            }
        }
        lemma_dropped(s, earlier);
        assert(drops.last() == drops[drops.len() - 1]);
        lemma_without(dropped(s, earlier), drops.last());
    }
}

/// What was shrunk is within the bound, holds no member more often than the whole did,
/// and is the whole where the whole was within the bound.
pub proof fn lemma_shrunk<T>(out: Seq<T>, full: Seq<T>, n: nat)
    requires
        is_shrunk(out, full, n),
    ensures
        out.len() <= n,
        out.to_multiset().subset_of(full.to_multiset()),
        full.len() <= n ==> out == full,
        full.len() > n ==> out.len() == n,
{
    let drops = choose|drops: Seq<int>|
        {
            &&& #[trigger] can_drop(full.len(), drops)
            &&& drops.len() == if full.len() > n {
                full.len() - n
            } else {
                0
            }
            &&& out == dropped(full, drops)
        };
    lemma_dropped(full, drops);
}

/// `out` is what is left, within the bound `n`, of what mapping `func` over `f` beside
/// `space` may give.
pub open spec fn is_bounded_product<A, R, B, F: Fn(A, R) -> B>(
    func: F,
    f: Seq<A>,
    space: Seq<R>,
    n: nat,
    out: Seq<B>,
) -> bool {
    exists|full: Seq<B>| #[trigger] is_product(func, f, space, full) && is_shrunk(out, full, n)
}

/// Dropping one member leaves the bag of the others.
pub proof fn lemma_without<T>(s: Seq<T>, i: int)
    requires
        0 <= i < s.len(),
    ensures
        without(s, i).len() == s.len() - 1,
        without(s, i).to_multiset() =~= s.to_multiset().remove(s[i]),
{
    let last = s.len() - 1;
    let u = s.update(i, s.last());
    assert(u.drop_last() =~= u.remove(last));
    to_multiset_update(s, i, s.last());
    to_multiset_remove(u, last);
    vstd::seq_lib::to_multiset_contains(s, s[i]);
    vstd::seq_lib::to_multiset_contains(s, s.last());
    assert(s.contains(s[i]));
    assert(s.contains(s.last()));
    assert(u[last] == s.last());
    assert forall|x: T| without(s, i).to_multiset().count(x) == s.to_multiset().remove(s[i]).count(
        x,
    ) by {
        assert(s.to_multiset().count(s[i]) > 0);
        assert(s.to_multiset().count(s.last()) > 0);
    }
}

impl<const N: usize> PopulationSampler<N> {
    /// Drops the member at position `index`: the last member takes its place.
    pub fn discard<T>(f: Vec<T>, index: usize) -> (out: Vec<T>)
        requires
            index < f@.len(),
        ensures
            out@ == without(f@, index as int),
    {
        let mut f = f;
        f.swap_remove(index);
        f
    }

    /// Drops members at positions drawn with `rng`, one at a time, until at most `N` are
    /// left.
    pub fn shrink_to_capacity<T: Inner, G: Rng>(f: Vec<T>, rng: &mut G) -> (out: Vec<T>)
        ensures
            is_shrunk(out@, f@, N as nat),
    {
        let ghost full = f@;
        let ghost drops: Seq<int> = Seq::empty();
        let mut f = f;
        while f.len() > N
            invariant
                can_drop(full.len(), drops),
                f@ == dropped(full, drops),
                f@.len() == full.len() - drops.len(),
                full.len() <= N ==> drops.len() == 0,
                full.len() > N ==> f@.len() >= N,
            decreases f@.len(),
        {
            let index: usize = draw_below::<usize, G>(rng, 0, f.len());
            proof {
                let ghost earlier = drops;
                drops = drops.push(index as int);
                assert(drops.drop_last() =~= earlier);
                assert(can_drop(full.len(), drops)) by {
                    assert forall|i: int| 0 <= i < drops.len() implies 0 <= #[trigger] drops[i]
                        < full.len() - i by {
                        if i < earlier.len() {
                            assert(drops[i] == earlier[i]);
                        }
                    }
                }
            }
            f = Self::discard(f, index);
        }
        f
    }

    /// Applies `func` to every outcome, in order.
    pub fn fmap<A: Inner, B: Inner, F: Fn(A) -> B>(f: Vec<A>, func: F) -> (out: Vec<B>)
        requires
            faithful_clone::<A>(),
            forall|i: int| 0 <= i < f@.len() ==> call_requires(func, (f@[i],)),
        ensures
            is_image(func, f@, out@),
            f@.len() <= N ==> out@.len() <= N,
    {
        Enumerator::fmap(f, func)
    }

    /// Pairs every outcome with every value of `range` and applies `func` to each pair,
    /// as `Enumerator` does, then drops results at random until at most `N` are left.
    pub fn fmap_rand_range<
        A: Inner,
        B: Inner,
        R: RandomVariable,
        Rg: RandomVariableRange<R>,
        G: Rng,
        F: Fn(A, R) -> B,
    >(f: Vec<A>, range: Rg, rng: &mut G, func: F) -> (out: Vec<B>)
        requires
            faithful_clone::<A>(),
            accepts_each(func, f@, range.sample_space()),
            f@.len() > 0 ==> range.sample_space().len() <= usize::MAX,
        ensures
            out@.len() <= N,
            is_bounded_product(func, f@, range.sample_space(), N as nat, out@),
    {
        let full = Enumerator::fmap_rand_range(f, range, rng, func);
        let out = Self::shrink_to_capacity(full, rng);
        proof {
            lemma_shrunk(out@, full@, N as nat);
        }
        out
    }

    /// Pairs every outcome with every possible value of `R` and applies `func` to each
    /// pair, as `Enumerator` does, then drops results at random until at most `N` are
    /// left.
    pub fn fmap_rand<A: Inner, B: Inner, R: RandomVariable, G: Rng, F: Fn(A, R) -> B>(
        f: Vec<A>,
        rng: &mut G,
        func: F,
    ) -> (out: Vec<B>)
        requires
            faithful_clone::<A>(),
            accepts_each(func, f@, R::sample_space()),
            f@.len() > 0 ==> R::sample_space().len() <= usize::MAX,
        ensures
            out@.len() <= N,
            is_bounded_product(func, f@, R::sample_space(), N as nat, out@),
    {
        let full = Enumerator::fmap_rand(f, rng, func);
        let out = Self::shrink_to_capacity(full, rng);
        proof {
            lemma_shrunk(out@, full@, N as nat);
        }
        out
    }
}

} // verus!
