//! The strategy that follows one course of the random process.

use vstd::prelude::*;
use rand::Rng;
use crate::inner::Inner;
use crate::random_variable_ranges::RandomVariableRange;
use crate::random_variables::RandomVariable;

verus! {

/// Samples the desired distributions and produces a single possible output of the
/// random process.
#[derive(Clone, Copy, Debug, Default, Eq, Hash, PartialEq)]
pub struct Sampler;

/// `out` is a value that `func` may return for `a` beside some member of `space`.
pub open spec fn is_drawn<A, R, B, F: Fn(A, R) -> B>(func: F, a: A, space: Seq<R>, out: B) -> bool {
    exists|j: int| 0 <= j < space.len() && call_ensures(func, (a, #[trigger] space[j]), out)
}

/// `func` may be called with `a` beside every member of `space`.
pub open spec fn accepts_beside<A, R, B, F: Fn(A, R) -> B>(func: F, a: A, space: Seq<R>) -> bool {
    forall|j: int| 0 <= j < space.len() ==> call_requires(func, (a, #[trigger] space[j]))
}

impl Sampler {
    /// Applies `func` to the outcome.
    pub fn fmap<A: Inner, B: Inner, F: Fn(A) -> B>(f: A, func: F) -> (out: B)
        requires
            call_requires(func, (f,)),
        ensures
            call_ensures(func, (f,), out),
    {
        func(f)
    }

    /// Draws one value of `R` with `rng` and applies `func` to the outcome and that
    /// value.
    pub fn fmap_rand<A: Inner, B: Inner, R: RandomVariable, G: Rng, F: Fn(A, R) -> B>(
        f: A,
        rng: &mut G,
        func: F,
    ) -> (out: B)
        requires
            accepts_beside(func, f, R::sample_space()),
        ensures
            is_drawn(func, f, R::sample_space(), out),
    {
        let r = R::sample(rng);
        proof {
            let j = choose|j: int| 0 <= j < R::sample_space().len() && R::sample_space()[j] == r;
            assert(R::sample_space()[j] == r);
        }
        func(f, r)
    }

    /// Draws one value of `range` with `rng` and applies `func` to the outcome and that
    /// value. The range must hold a value to draw.
    pub fn fmap_rand_range<
        A: Inner,
        B: Inner,
        R: RandomVariable,
        Rg: RandomVariableRange<R>,
        G: Rng,
        F: Fn(A, R) -> B,
    >(f: A, range: Rg, rng: &mut G, func: F) -> (out: B)
        requires
            range.sample_space().len() > 0,
            accepts_beside(func, f, range.sample_space()),
        ensures
            is_drawn(func, f, range.sample_space(), out),
    {
        let r = range.sample(rng);
        proof {
            let space = range.sample_space();
            let j = choose|j: int| 0 <= j < space.len() && space[j] == r;
            assert(space[j] == r);
        }
        func(f, r)
    }

    /// Applies `func` to the outcome: the one outcome it gives is the flattened result.
    pub fn fmap_flat<A: Inner, B: Inner, F: FnMut(A) -> B>(f: A, mut func: F) -> (out: B)
        requires
            call_requires(func, (f,)),
        ensures
            call_ensures(func, (f,), out),
    {
        func(f)
    }
}

} // verus!
