//! Ranges of random variables: runtime-chosen intervals that can be listed in full and
//! drawn from uniformly.

use vstd::prelude::*;
use rand::Rng;
use std::marker::PhantomData;
use std::ops::{Range, RangeInclusive};
use crate::random_variables::{IntegerCarrier, RandomVariable};

verus! {

/// A (possibly inclusive) range of a [`RandomVariable`] that can be enumerated or
/// sampled from.
pub trait RandomVariableRange<R: RandomVariable> {
    /// Every value in this range, in the order in which it is enumerated.
    spec fn sample_space(&self) -> Seq<R>;

    /// The number of values in this range, where a `usize` can hold it.
    fn sample_space_len(&self) -> (n: Option<usize>)
        ensures
            self.sample_space().len() <= usize::MAX ==> n == Some(
                self.sample_space().len() as usize,
            ),
            self.sample_space().len() > usize::MAX ==> n is None,
    ;

    /// The value at position `i` of this range.
    fn sample_space_at(&self, i: usize) -> (r: R)
        requires
            i < self.sample_space().len(),
        ensures
            r == self.sample_space()[i as int],
    ;

    /// One value of this range, drawn with `rng`. An empty range has none to draw.
    fn sample<G: Rng>(&self, rng: &mut G) -> (r: R)
        requires
            self.sample_space().len() > 0,
        ensures
            self.sample_space().contains(r),
    ;
}

/// The values from `low` up to and including `high`, in rising order.
pub open spec fn span<T: IntegerCarrier>(low: T, high: T) -> Seq<T> {
    if low as int <= high as int {
        Seq::new((high as int - low as int + 1) as nat, |i: int| T::of_int(low as int + i))
    } else {
        Seq::empty()
    }
}

/// The values from `low` up to but not including `high`, in rising order.
pub open spec fn span_below<T: IntegerCarrier>(low: T, high: T) -> Seq<T> {
    if (low as int) < (high as int) {
        Seq::new((high as int - low as int) as nat, |i: int| T::of_int(low as int + i))
    } else {
        Seq::empty()
    }
}

/// `RangeInclusive::start`: the lower bound of a range that has not been iterated to
/// its end.
pub assume_specification<Idx>[ RangeInclusive::<Idx>::start ](r: &RangeInclusive<Idx>) -> (s: &Idx)
    ensures
        !r@.exhausted ==> *s == r@.start,
;

/// `RangeInclusive::end`: the upper bound of a range that has not been iterated to its
/// end.
pub assume_specification<Idx>[ RangeInclusive::<Idx>::end ](r: &RangeInclusive<Idx>) -> (e: &Idx)
    ensures
        !r@.exhausted ==> *e == r@.end,
;

/// `RangeInclusive::is_empty` on integers: a range holds no items once it has been
/// iterated to its end, or where its lower bound lies above its upper bound.
#[verifier::external_body]
fn holds_nothing<T: PartialOrd + Integer>(r: &RangeInclusive<T>) -> (b: bool)
    ensures
        b == (r@.exhausted || r@.start as int > r@.end as int),
{
    r.is_empty()
}

impl<T: IntegerCarrier> RandomVariableRange<T> for Range<T> {
    open spec fn sample_space(&self) -> Seq<T> {
        span_below(self.start, self.end)
    }

    fn sample_space_len(&self) -> (n: Option<usize>) {
        if self.start.is_below(self.end) {
            self.start.distance(self.end)
        } else {
            Some(0)
        }
    }

    fn sample_space_at(&self, i: usize) -> (r: T) {
        proof {
            T::lemma_within(self.end);
        }
        let r = self.start.offset(i);
        proof {
            T::lemma_within(r);
        }
        r
    }

    fn sample<G: Rng>(&self, rng: &mut G) -> (r: T) {
        let r = T::draw_from(rng, self.start, self.end);
        proof {
            T::lemma_within(r);
            assert(self.sample_space()[r as int - self.start as int] == r);
        }
        r
    }
}

impl<T: IntegerCarrier> RandomVariableRange<T> for RangeInclusive<T> {
    open spec fn sample_space(&self) -> Seq<T> {
        if self@.exhausted {
            Seq::empty()
        } else {
            span(self@.start, self@.end)
        }
    }

    fn sample_space_len(&self) -> (n: Option<usize>) {
        if holds_nothing(self) {
            Some(0)
        } else {
            match self.start().distance(*self.end()) {
                Some(d) => if d < usize::MAX {
                    Some(d + 1)
                } else {
                    None
                },
                None => None,
            }
        }
    }

    fn sample_space_at(&self, i: usize) -> (r: T) {
        proof {
            T::lemma_within(self@.end);
        }
        let r = self.start().offset(i);
        proof {
            T::lemma_within(r);
        }
        r
    }

    fn sample<G: Rng>(&self, rng: &mut G) -> (r: T) {
        let r = T::draw_within(rng, *self.start(), *self.end());
        proof {
            T::lemma_within(r);
            assert(self.sample_space()[r as int - self@.start as int] == r);
        }
        r
    }
}

/// The range that holds every value of a random variable: its whole sample space.
pub struct Whole<R: RandomVariable> {
    carrier: PhantomData<R>,
}

impl<R: RandomVariable> Whole<R> {
    /// The whole sample space of `R` as a range.
    pub fn new() -> (w: Self)
        ensures
            w.sample_space() == R::sample_space(),
    {
        Whole { carrier: PhantomData }
    }
}

impl<R: RandomVariable> RandomVariableRange<R> for Whole<R> {
    open spec fn sample_space(&self) -> Seq<R> {
        R::sample_space()
    }

    fn sample_space_len(&self) -> (n: Option<usize>) {
        R::sample_space_len()
    }

    fn sample_space_at(&self, i: usize) -> (r: R) {
        R::sample_space_at(i)
    }

    fn sample<G: Rng>(&self, rng: &mut G) -> (r: R) {
        R::sample(rng)
    }
}

} // verus!
