//! What it means for the results of a step to come from the function that was lifted.

use vstd::prelude::*;
use vstd::multiset::Multiset;

verus! {

/// `bs` holds, for each member of `space` in turn, a value that `func` may return for
/// `a` and that member.
pub open spec fn is_row<A, R, B, F: Fn(A, R) -> B>(func: F, a: A, space: Seq<R>, bs: Seq<B>) -> bool {
    &&& bs.len() == space.len()
    &&& forall|j: int| 0 <= j < space.len() ==> call_ensures(func, (a, space[j]), #[trigger] bs[j])
}

/// `row` is the bag of some row of `func` for `a` over `space`.
pub open spec fn is_row_bag<A, R, B, F: Fn(A, R) -> B>(
    func: F,
    a: A,
    space: Seq<R>,
    row: Multiset<B>,
) -> bool {
    exists|bs: Seq<B>| #[trigger] is_row(func, a, space, bs) && row == bs.to_multiset()
}

/// `func` may be called with every member of `s` beside every member of `space`.
pub open spec fn accepts_all<A, R, B, F: Fn(A, R) -> B>(func: F, s: Set<A>, space: Seq<R>) -> bool {
    forall|a: A, j: int|
        #![trigger s.contains(a), space[j]]
        s.contains(a) && 0 <= j < space.len() ==> call_requires(func, (a, space[j]))
}

/// `func` returns `g(a)` for `a`, whenever it returns.
pub open spec fn computes<A, B, F: Fn(A) -> B>(func: F, g: spec_fn(A) -> B) -> bool {
    forall|a: A, b: B| #[trigger] call_ensures(func, (a,), b) ==> b == g(a)
}

/// `func` returns `g(a, r)` for `a` and `r`, whenever it returns.
pub open spec fn computes_with<A, R, B, F: Fn(A, R) -> B>(func: F, g: spec_fn(A, R) -> B) -> bool {
    forall|a: A, r: R, b: B| #[trigger] call_ensures(func, (a, r), b) ==> b == g(a, r)
}

/// Every member of `s` beside every member of `space`, in the order of `s` and within
/// one member of `s` in the order of `space`, each pair taken through `g`.
pub open spec fn product<A, R, B>(s: Seq<A>, space: Seq<R>, g: spec_fn(A, R) -> B) -> Seq<B> {
    Seq::new(
        s.len() * space.len(),
        |k: int| g(s[k / (space.len() as int)], space[k % (space.len() as int)]),
    )
}

} // verus!
