//! The containers that the strategies work on, and how a single value enters each.

use vstd::prelude::*;
use vstd::std_specs::hash::*;
use std::collections::{HashMap, HashSet};
use std::hash::BuildHasher;
use crate::inner::Inner;
use crate::weights::Weight;

verus! {

broadcast use vstd::std_specs::hash::group_hash_axioms;

/// A container used by a strategy during computations.
///
/// Its one operation puts a single value into the container, which is how a series of
/// steps of a random process begins. The steps themselves belong to the strategies:
/// what a step returns depends on the strategy, not on the container alone.
pub trait Functor<I: Inner>: Sized {
    /// This container holds `i` once, and nothing else.
    spec fn holds_only(&self, i: I) -> bool;

    /// Produce an instance of `Self` containing the argument as its inner.
    fn pure(i: I) -> (f: Self)
        ensures
            f.holds_only(i),
    ;
}

impl<I: Inner> Functor<I> for I {
    open spec fn holds_only(&self, i: I) -> bool {
        *self == i
    }

    fn pure(i: I) -> (f: I) {
        i
    }
}

impl<I: Inner> Functor<I> for Vec<I> {
    open spec fn holds_only(&self, i: I) -> bool {
        self@ == seq![i]
    }

    fn pure(i: I) -> (f: Self) {
        let mut v: Vec<I> = Vec::new();
        v.push(i);
        proof {
            assert(v@ =~= seq![i]);
        }
        v
    }
}

impl<I: Inner, N: Weight, S: BuildHasher + Default> Functor<I> for HashMap<I, N, S> {
    open spec fn holds_only(&self, i: I) -> bool {
        obeys_key_model::<I>() && builds_valid_hashers::<S>() ==> {
            &&& self@.dom() == Set::<I>::empty().insert(i)
            &&& self@[i].amount() == 1
        }
    }

    fn pure(i: I) -> (f: Self) {
        let mut hm: HashMap<I, N, S> = HashMap::default();
        hm.insert(i, N::one());
        proof {
            if obeys_key_model::<I>() && builds_valid_hashers::<S>() {
                assert(hm@.dom() =~= Set::<I>::empty().insert(i));
            }
        }
        hm
    }
}

impl<I: Inner, S: BuildHasher + Default> Functor<I> for HashSet<I, S> {
    open spec fn holds_only(&self, i: I) -> bool {
        obeys_key_model::<I>() && builds_valid_hashers::<S>() ==> self@ == Set::<I>::empty().insert(i)
    }

    fn pure(i: I) -> (f: Self) {
        let mut hs: HashSet<I, S> = HashSet::default();
        hs.insert(i);
        hs
    }
}

} // verus!
