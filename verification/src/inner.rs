//! What a value must offer to travel through a random process.

use vstd::prelude::*;
use std::hash::Hash;

verus! {

/// A value that a functor may hold: it can be duplicated, compared and hashed.
pub trait Inner: Clone + Eq + Hash + PartialEq {

}

impl<T: Clone + Eq + Hash + PartialEq> Inner for T {

}

/// Duplicating a value of type `A` gives the value itself. The strategies duplicate
/// the values they hold, and say what they return only for types of which this holds.
pub open spec fn faithful_clone<A: Clone>() -> bool {
    forall|a: A, c: A| #[trigger] cloned(a, c) ==> a == c
}

} // verus!
