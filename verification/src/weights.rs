//! Weights: the unsigned integer types in which the ways that lead to an outcome are
//! counted.

use vstd::prelude::*;
use crate::multiples::{common_multiple, is_least_common_multiple, pair_of};

verus! {

/// A type of weights: an unsigned integer type, read as the natural numbers up to a
/// limit, with the arithmetic that counting calls for.
pub trait Weight: Copy + Sized {
    /// The number that this weight stands for.
    spec fn amount(self) -> nat;

    /// The greatest number that a weight of this type can stand for.
    spec fn limit() -> nat;

    /// Every weight is within the limit, and two weights that stand for one number are
    /// one weight.
    proof fn lemma_weight(a: Self, b: Self)
        ensures
            a.amount() <= Self::limit(),
            a.amount() == b.amount() ==> a == b,
    ;

    /// The weight of nothing.
    fn zero() -> (w: Self)
        ensures
            w.amount() == 0,
    ;

    /// The weight of one way.
    fn one() -> (w: Self)
        ensures
            w.amount() == 1,
    ;

    /// Whether this is the weight of nothing.
    fn is_zero(self) -> (b: bool)
        ensures
            b == (self.amount() == 0),
    ;

    /// The sum of two weights.
    fn plus(self, other: Self) -> (w: Self)
        requires
            self.amount() + other.amount() <= Self::limit(),
        ensures
            w.amount() == self.amount() + other.amount(),
    ;

    /// The product of two weights.
    fn times(self, other: Self) -> (w: Self)
        requires
            self.amount() * other.amount() <= Self::limit(),
        ensures
            w.amount() == self.amount() * other.amount(),
    ;

    /// How often `other` goes into this weight.
    fn over(self, other: Self) -> (w: Self)
        requires
            other.amount() > 0,
        ensures
            w.amount() == self.amount() / other.amount(),
    ;

    /// The sum of two weights, where it is within the limit.
    fn checked_plus(self, other: Self) -> (w: Option<Self>)
        ensures
            self.amount() + other.amount() <= Self::limit() ==> w is Some && w->0.amount()
                == self.amount() + other.amount(),
            self.amount() + other.amount() > Self::limit() ==> w is None,
    ;

    /// The product of two weights, where it is within the limit.
    fn checked_times(self, other: Self) -> (w: Option<Self>)
        ensures
            self.amount() * other.amount() <= Self::limit() ==> w is Some && w->0.amount()
                == self.amount() * other.amount(),
            self.amount() * other.amount() > Self::limit() ==> w is None,
    ;

    /// The weight that stands for `n`, where `n` is within the limit.
    fn from_count(n: usize) -> (w: Option<Self>)
        ensures
            n <= Self::limit() ==> w is Some && w->0.amount() == n,
            n > Self::limit() ==> w is None,
    ;

    /// The least common multiple of two weights.
    fn least_multiple(self, other: Self) -> (m: Self)
        requires
            self.amount() > 0,
            other.amount() > 0,
            exists|c: nat| #[trigger]
                common_multiple(c, pair_of(self.amount(), other.amount())) && c <= Self::limit(),
        ensures
            is_least_common_multiple(m.amount(), pair_of(self.amount(), other.amount())),
    ;
}

/// The number that a value of an integer type stands for, where it is not negative.
pub open spec fn number<T: Integer>(t: T) -> nat {
    t as nat
}

/// `num::integer::lcm` at an integer type. For two positive numbers that have a common
/// multiple within the type, the outside function is taken to return their least common
/// multiple: it computes `a * (b / gcd(a, b))`, which is that number and so cannot
/// overflow here.
#[verifier::external_body]
pub(crate) fn lcm<T: num::Integer + Integer>(a: T, b: T) -> (m: T)
    requires
        a as int > 0,
        b as int > 0,
        exists|t: T| t as int > 0 && #[trigger] common_multiple(number(t), pair_of(number(a), number(b))),
    ensures
        is_least_common_multiple(number(m), pair_of(number(a), number(b))),
{
    num::integer::lcm(a, b)
}

impl Weight for u8 {
    open spec fn amount(self) -> nat {
        self as nat
    }

    open spec fn limit() -> nat {
        u8::MAX as nat
    }

    proof fn lemma_weight(a: Self, b: Self) {
    }

    fn zero() -> (w: Self) {
        0
    }

    fn one() -> (w: Self) {
        1
    }

    fn is_zero(self) -> (b: bool) {
        self == 0
    }

    fn plus(self, other: Self) -> (w: Self) {
        self + other
    }

    fn times(self, other: Self) -> (w: Self) {
        self * other
    }

    fn over(self, other: Self) -> (w: Self) {
        self / other
    }

    fn checked_plus(self, other: Self) -> (w: Option<Self>) {
        self.checked_add(other)
    }

    fn checked_times(self, other: Self) -> (w: Option<Self>) {
        self.checked_mul(other)
    }

    fn from_count(n: usize) -> (w: Option<Self>) {
        if n as u128 <= u8::MAX as u128 {
            Some(n as u8)
        } else {
            None
        }
    }

    fn least_multiple(self, other: Self) -> (m: Self) {
        proof {
            let c = choose|c: nat| #[trigger]
                common_multiple(c, pair_of(self.amount(), other.amount())) && c <= Self::limit();
            assert(common_multiple(number(c as u8), pair_of(number(self), number(other))));
        }
        lcm::<u8>(self, other)
    }
}

impl Weight for u16 {
    open spec fn amount(self) -> nat {
        self as nat
    }

    open spec fn limit() -> nat {
        u16::MAX as nat
    }

    proof fn lemma_weight(a: Self, b: Self) {
    }

    fn zero() -> (w: Self) {
        0
    }

    fn one() -> (w: Self) {
        1
    }

    fn is_zero(self) -> (b: bool) {
        self == 0
    }

    fn plus(self, other: Self) -> (w: Self) {
        self + other
    }

    fn times(self, other: Self) -> (w: Self) {
        self * other
    }

    fn over(self, other: Self) -> (w: Self) {
        self / other
    }

    fn checked_plus(self, other: Self) -> (w: Option<Self>) {
        self.checked_add(other)
    }

    fn checked_times(self, other: Self) -> (w: Option<Self>) {
        self.checked_mul(other)
    }

    fn from_count(n: usize) -> (w: Option<Self>) {
        if n as u128 <= u16::MAX as u128 {
            Some(n as u16)
        } else {
            None
        }
    }

    fn least_multiple(self, other: Self) -> (m: Self) {
        proof {
            let c = choose|c: nat| #[trigger]
                common_multiple(c, pair_of(self.amount(), other.amount())) && c <= Self::limit();
            assert(common_multiple(number(c as u16), pair_of(number(self), number(other))));
        }
        lcm::<u16>(self, other)
    }
}

impl Weight for u32 {
    open spec fn amount(self) -> nat {
        self as nat
    }

    open spec fn limit() -> nat {
        u32::MAX as nat
    }

    proof fn lemma_weight(a: Self, b: Self) {
    }

    fn zero() -> (w: Self) {
        0
    }

    fn one() -> (w: Self) {
        1
    }

    fn is_zero(self) -> (b: bool) {
        self == 0
    }

    fn plus(self, other: Self) -> (w: Self) {
        self + other
    }

    fn times(self, other: Self) -> (w: Self) {
        self * other
    }

    fn over(self, other: Self) -> (w: Self) {
        self / other
    }

    fn checked_plus(self, other: Self) -> (w: Option<Self>) {
        self.checked_add(other)
    }

    fn checked_times(self, other: Self) -> (w: Option<Self>) {
        self.checked_mul(other)
    }

    fn from_count(n: usize) -> (w: Option<Self>) {
        if n as u128 <= u32::MAX as u128 {
            Some(n as u32)
        } else {
            None
        }
    }

    fn least_multiple(self, other: Self) -> (m: Self) {
        proof {
            let c = choose|c: nat| #[trigger]
                common_multiple(c, pair_of(self.amount(), other.amount())) && c <= Self::limit();
            assert(common_multiple(number(c as u32), pair_of(number(self), number(other))));
        }
        lcm::<u32>(self, other)
    }
}

impl Weight for u64 {
    open spec fn amount(self) -> nat {
        self as nat
    }

    open spec fn limit() -> nat {
        u64::MAX as nat
    }

    proof fn lemma_weight(a: Self, b: Self) {
    }

    fn zero() -> (w: Self) {
        0
    }

    fn one() -> (w: Self) {
        1
    }

    fn is_zero(self) -> (b: bool) {
        self == 0
    }

    fn plus(self, other: Self) -> (w: Self) {
        self + other
    }

    fn times(self, other: Self) -> (w: Self) {
        self * other
    }

    fn over(self, other: Self) -> (w: Self) {
        self / other
    }

    fn checked_plus(self, other: Self) -> (w: Option<Self>) {
        self.checked_add(other)
    }

    fn checked_times(self, other: Self) -> (w: Option<Self>) {
        self.checked_mul(other)
    }

    fn from_count(n: usize) -> (w: Option<Self>) {
        if n as u128 <= u64::MAX as u128 {
            Some(n as u64)
        } else {
            None
        }
    }

    fn least_multiple(self, other: Self) -> (m: Self) {
        proof {
            let c = choose|c: nat| #[trigger]
                common_multiple(c, pair_of(self.amount(), other.amount())) && c <= Self::limit();
            assert(common_multiple(number(c as u64), pair_of(number(self), number(other))));
        }
        lcm::<u64>(self, other)
    }
}

impl Weight for u128 {
    open spec fn amount(self) -> nat {
        self as nat
    }

    open spec fn limit() -> nat {
        u128::MAX as nat
    }

    proof fn lemma_weight(a: Self, b: Self) {
    }

    fn zero() -> (w: Self) {
        0
    }

    fn one() -> (w: Self) {
        1
    }

    fn is_zero(self) -> (b: bool) {
        self == 0
    }

    fn plus(self, other: Self) -> (w: Self) {
        self + other
    }

    fn times(self, other: Self) -> (w: Self) {
        self * other
    }

    fn over(self, other: Self) -> (w: Self) {
        self / other
    }

    fn checked_plus(self, other: Self) -> (w: Option<Self>) {
        self.checked_add(other)
    }

    fn checked_times(self, other: Self) -> (w: Option<Self>) {
        self.checked_mul(other)
    }

    fn from_count(n: usize) -> (w: Option<Self>) {
        if n as u128 <= u128::MAX as u128 {
            Some(n as u128)
        } else {
            None
        }
    }

    fn least_multiple(self, other: Self) -> (m: Self) {
        proof {
            let c = choose|c: nat| #[trigger]
                common_multiple(c, pair_of(self.amount(), other.amount())) && c <= Self::limit();
            assert(common_multiple(number(c as u128), pair_of(number(self), number(other))));
        }
        lcm::<u128>(self, other)
    }
}

impl Weight for usize {
    open spec fn amount(self) -> nat {
        self as nat
    }

    open spec fn limit() -> nat {
        usize::MAX as nat
    }

    proof fn lemma_weight(a: Self, b: Self) {
    }

    fn zero() -> (w: Self) {
        0
    }

    fn one() -> (w: Self) {
        1
    }

    fn is_zero(self) -> (b: bool) {
        self == 0
    }

    fn plus(self, other: Self) -> (w: Self) {
        self + other
    }

    fn times(self, other: Self) -> (w: Self) {
        self * other
    }

    fn over(self, other: Self) -> (w: Self) {
        self / other
    }

    fn checked_plus(self, other: Self) -> (w: Option<Self>) {
        self.checked_add(other)
    }

    fn checked_times(self, other: Self) -> (w: Option<Self>) {
        self.checked_mul(other)
    }

    fn from_count(n: usize) -> (w: Option<Self>) {
        if n as u128 <= usize::MAX as u128 {
            Some(n as usize)
        } else {
            None
        }
    }

    fn least_multiple(self, other: Self) -> (m: Self) {
        proof {
            let c = choose|c: nat| #[trigger]
                common_multiple(c, pair_of(self.amount(), other.amount())) && c <= Self::limit();
            assert(common_multiple(number(c as usize), pair_of(number(self), number(other))));
        }
        lcm::<usize>(self, other)
    }
}

} // verus!
