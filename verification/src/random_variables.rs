//! Random variables: types with finitely many values that can be listed in full and
//! drawn from uniformly.

use vstd::prelude::*;
use rand::Rng;
use rand::distr::{Distribution, StandardUniform};
use rand::distr::uniform::SampleUniform;

verus! {

/// A type that is enumerable and can be sampled from uniformly.
///
/// The sample space is a finite sequence of all possible values. It is read one position
/// at a time, so that a space too large to hold in memory can still be walked through.
/// `sample` must draw uniformly from exactly the values that the sample space lists:
/// a sampler that favours some values, or a sample space that leaves some out, makes the
/// strategies disagree with each other.
pub trait RandomVariable: Sized {
    /// Every possible value of this type, in the order in which it is enumerated.
    spec fn sample_space() -> Seq<Self>;

    /// The number of possible values, where a `usize` can hold it.
    fn sample_space_len() -> (n: Option<usize>)
        ensures
            Self::sample_space().len() <= usize::MAX ==> n == Some(
                Self::sample_space().len() as usize,
            ),
            Self::sample_space().len() > usize::MAX ==> n is None,
    ;

    /// The possible value at position `i` of the sample space.
    fn sample_space_at(i: usize) -> (r: Self)
        requires
            i < Self::sample_space().len(),
        ensures
            r == Self::sample_space()[i as int],
    ;

    /// One possible value, drawn with `rng`.
    fn sample<G: Rng>(rng: &mut G) -> (r: Self)
        ensures
            Self::sample_space().contains(r),
    ;
}

/// `rand::Rng::random`: a value of `T` drawn from the standard uniform distribution.
/// Nothing is claimed of the value.
#[verifier::external_body]
pub(crate) fn draw<T, G: Rng>(rng: &mut G) -> (r: T) where StandardUniform: Distribution<T> {
    rng.random()
}

/// `rand::Rng::random_range` on `low..high`, for `low < high`, where the outside function
/// does not panic: the value drawn is at least `low` and less than `high`.
#[verifier::external_body]
pub(crate) fn draw_below<T: SampleUniform + PartialOrd + Integer, G: Rng>(
    rng: &mut G,
    low: T,
    high: T,
) -> (r: T)
    requires
        (low as int) < (high as int),
    ensures
        low as int <= r as int,
        (r as int) < (high as int),
{
    rng.random_range(low..high)
}

/// `rand::Rng::random_range` on `low..=high`, for `low <= high`, where the outside
/// function does not panic: the value drawn is at least `low` and at most `high`.
#[verifier::external_body]
pub(crate) fn draw_through<T: SampleUniform + PartialOrd + Integer, G: Rng>(
    rng: &mut G,
    low: T,
    high: T,
) -> (r: T)
    requires
        low as int <= high as int,
    ensures
        low as int <= r as int,
        r as int <= high as int,
{
    rng.random_range(low..=high)
}

impl RandomVariable for bool {
    open spec fn sample_space() -> Seq<bool> {
        seq![false, true]
    }

    fn sample_space_len() -> (n: Option<usize>) {
        Some(2)
    }

    fn sample_space_at(i: usize) -> (r: bool) {
        i == 1
    }

    fn sample<G: Rng>(rng: &mut G) -> (r: bool) {
        let r: bool = draw::<bool, G>(rng);
        proof {
            let space = <bool as RandomVariable>::sample_space();
            assert(space[0] == false && space[1] == true);
        }
        r
    }
}

/// A fixed-width integer type as the carrier of random variables and of ranges: its
/// values stand in one line from the lowest to the highest, can be counted off from any
/// of them, and can be drawn uniformly from the whole line or from a part of it.
pub trait IntegerCarrier: Copy + PartialOrd + Integer {
    /// The lowest value of the type.
    spec fn lowest() -> int;

    /// The highest value of the type.
    spec fn highest() -> int;

    /// The value of the type that stands for `i`, where there is one.
    spec fn of_int(i: int) -> Self;

    /// Every value lies between the lowest and the highest and stands for itself.
    proof fn lemma_within(x: Self)
        ensures
            Self::lowest() <= x as int <= Self::highest(),
            Self::of_int(x as int) == x,
    ;

    /// Every number between the lowest and the highest has a value that stands for it.
    proof fn lemma_of_int(i: int)
        requires
            Self::lowest() <= i <= Self::highest(),
        ensures
            Self::of_int(i) as int == i,
    ;

    /// The lowest value of the type.
    fn lowest_value() -> (r: Self)
        ensures
            r as int == Self::lowest(),
    ;

    /// The highest value of the type.
    fn highest_value() -> (r: Self)
        ensures
            r as int == Self::highest(),
    ;

    /// Whether `self` is less than `other`.
    fn is_below(self, other: Self) -> (b: bool)
        ensures
            b == ((self as int) < (other as int)),
    ;

    /// The value `i` steps above `self`.
    fn offset(self, i: usize) -> (r: Self)
        requires
            self as int + i <= Self::highest(),
        ensures
            r as int == self as int + i,
    ;

    /// The number of steps from `self` up to `high`, where a `usize` can hold it.
    fn distance(self, high: Self) -> (d: Option<usize>)
        requires
            self as int <= high as int,
        ensures
            high as int - self as int <= usize::MAX ==> d == Some(
                (high as int - self as int) as usize,
            ),
            high as int - self as int > usize::MAX ==> d is None,
    ;

    /// A value drawn uniformly from the whole type.
    fn draw_any<G: Rng>(rng: &mut G) -> (r: Self)
    ;

    /// A value drawn uniformly from `low..high`.
    fn draw_from<G: Rng>(rng: &mut G, low: Self, high: Self) -> (r: Self)
        requires
            (low as int) < (high as int),
        ensures
            low as int <= r as int,
            (r as int) < (high as int),
    ;

    /// A value drawn uniformly from `low..=high`.
    fn draw_within<G: Rng>(rng: &mut G, low: Self, high: Self) -> (r: Self)
        requires
            low as int <= high as int,
        ensures
            low as int <= r as int,
            r as int <= high as int,
    ;
}

impl IntegerCarrier for u8 {
    open spec fn lowest() -> int {
        0
    }

    open spec fn highest() -> int {
        0xff
    }

    open spec fn of_int(i: int) -> Self {
        i as u8
    }

    proof fn lemma_within(x: Self) {
    }

    proof fn lemma_of_int(i: int) {
    }

    fn lowest_value() -> (r: Self) {
        u8::MIN
    }

    fn highest_value() -> (r: Self) {
        u8::MAX
    }

    fn is_below(self, other: Self) -> (b: bool) {
        self < other
    }

    fn offset(self, i: usize) -> (r: Self) {
        (self as i128 + i as i128) as u8
    }

    fn distance(self, high: Self) -> (d: Option<usize>) {
        let d: i128 = high as i128 - self as i128;
        if d <= usize::MAX as i128 {
            Some(d as usize)
        } else {
            None
        }
    }

    fn draw_any<G: Rng>(rng: &mut G) -> (r: Self) {
        draw::<u8, G>(rng)
    }

    fn draw_from<G: Rng>(rng: &mut G, low: Self, high: Self) -> (r: Self) {
        draw_below::<u8, G>(rng, low, high)
    }

    fn draw_within<G: Rng>(rng: &mut G, low: Self, high: Self) -> (r: Self) {
        draw_through::<u8, G>(rng, low, high)
    }
}

impl IntegerCarrier for u16 {
    open spec fn lowest() -> int {
        0
    }

    open spec fn highest() -> int {
        0xffff
    }

    open spec fn of_int(i: int) -> Self {
        i as u16
    }

    proof fn lemma_within(x: Self) {
    }

    proof fn lemma_of_int(i: int) {
    }

    fn lowest_value() -> (r: Self) {
        u16::MIN
    }

    fn highest_value() -> (r: Self) {
        u16::MAX
    }

    fn is_below(self, other: Self) -> (b: bool) {
        self < other
    }

    fn offset(self, i: usize) -> (r: Self) {
        (self as i128 + i as i128) as u16
    }

    fn distance(self, high: Self) -> (d: Option<usize>) {
        let d: i128 = high as i128 - self as i128;
        if d <= usize::MAX as i128 {
            Some(d as usize)
        } else {
            None
        }
    }

    fn draw_any<G: Rng>(rng: &mut G) -> (r: Self) {
        draw::<u16, G>(rng)
    }

    fn draw_from<G: Rng>(rng: &mut G, low: Self, high: Self) -> (r: Self) {
        draw_below::<u16, G>(rng, low, high)
    }

    fn draw_within<G: Rng>(rng: &mut G, low: Self, high: Self) -> (r: Self) {
        draw_through::<u16, G>(rng, low, high)
    }
}

impl IntegerCarrier for u32 {
    open spec fn lowest() -> int {
        0
    }

    open spec fn highest() -> int {
        0xffffffff
    }

    open spec fn of_int(i: int) -> Self {
        i as u32
    }

    proof fn lemma_within(x: Self) {
    }

    proof fn lemma_of_int(i: int) {
    }

    fn lowest_value() -> (r: Self) {
        u32::MIN
    }

    fn highest_value() -> (r: Self) {
        u32::MAX
    }

    fn is_below(self, other: Self) -> (b: bool) {
        self < other
    }

    fn offset(self, i: usize) -> (r: Self) {
        (self as i128 + i as i128) as u32
    }

    fn distance(self, high: Self) -> (d: Option<usize>) {
        let d: i128 = high as i128 - self as i128;
        if d <= usize::MAX as i128 {
            Some(d as usize)
        } else {
            None
        }
    }

    fn draw_any<G: Rng>(rng: &mut G) -> (r: Self) {
        draw::<u32, G>(rng)
    }

    fn draw_from<G: Rng>(rng: &mut G, low: Self, high: Self) -> (r: Self) {
        draw_below::<u32, G>(rng, low, high)
    }

    fn draw_within<G: Rng>(rng: &mut G, low: Self, high: Self) -> (r: Self) {
        draw_through::<u32, G>(rng, low, high)
    }
}

impl IntegerCarrier for u64 {
    open spec fn lowest() -> int {
        0
    }

    open spec fn highest() -> int {
        0xffffffffffffffff
    }

    open spec fn of_int(i: int) -> Self {
        i as u64
    }

    proof fn lemma_within(x: Self) {
    }

    proof fn lemma_of_int(i: int) {
    }

    fn lowest_value() -> (r: Self) {
        u64::MIN
    }

    fn highest_value() -> (r: Self) {
        u64::MAX
    }

    fn is_below(self, other: Self) -> (b: bool) {
        self < other
    }

    fn offset(self, i: usize) -> (r: Self) {
        (self as i128 + i as i128) as u64
    }

    fn distance(self, high: Self) -> (d: Option<usize>) {
        let d: i128 = high as i128 - self as i128;
        if d <= usize::MAX as i128 {
            Some(d as usize)
        } else {
            None
        }
    }

    fn draw_any<G: Rng>(rng: &mut G) -> (r: Self) {
        draw::<u64, G>(rng)
    }

    fn draw_from<G: Rng>(rng: &mut G, low: Self, high: Self) -> (r: Self) {
        draw_below::<u64, G>(rng, low, high)
    }

    fn draw_within<G: Rng>(rng: &mut G, low: Self, high: Self) -> (r: Self) {
        draw_through::<u64, G>(rng, low, high)
    }
}

impl IntegerCarrier for u128 {
    open spec fn lowest() -> int {
        0
    }

    open spec fn highest() -> int {
        0xffffffffffffffffffffffffffffffff
    }

    open spec fn of_int(i: int) -> Self {
        i as u128
    }

    proof fn lemma_within(x: Self) {
    }

    proof fn lemma_of_int(i: int) {
    }

    fn lowest_value() -> (r: Self) {
        u128::MIN
    }

    fn highest_value() -> (r: Self) {
        u128::MAX
    }

    fn is_below(self, other: Self) -> (b: bool) {
        self < other
    }

    fn offset(self, i: usize) -> (r: Self) {
        self + i as u128
    }

    fn distance(self, high: Self) -> (d: Option<usize>) {
        let d: u128 = high - self;
        if d <= usize::MAX as u128 {
            Some(d as usize)
        } else {
            None
        }
    }

    fn draw_any<G: Rng>(rng: &mut G) -> (r: Self) {
        draw::<u128, G>(rng)
    }

    fn draw_from<G: Rng>(rng: &mut G, low: Self, high: Self) -> (r: Self) {
        draw_below::<u128, G>(rng, low, high)
    }

    fn draw_within<G: Rng>(rng: &mut G, low: Self, high: Self) -> (r: Self) {
        draw_through::<u128, G>(rng, low, high)
    }
}

impl IntegerCarrier for i8 {
    open spec fn lowest() -> int {
        -0x80
    }

    open spec fn highest() -> int {
        0x7f
    }

    open spec fn of_int(i: int) -> Self {
        i as i8
    }

    proof fn lemma_within(x: Self) {
    }

    proof fn lemma_of_int(i: int) {
    }

    fn lowest_value() -> (r: Self) {
        i8::MIN
    }

    fn highest_value() -> (r: Self) {
        i8::MAX
    }

    fn is_below(self, other: Self) -> (b: bool) {
        self < other
    }

    fn offset(self, i: usize) -> (r: Self) {
        (self as i128 + i as i128) as i8
    }

    fn distance(self, high: Self) -> (d: Option<usize>) {
        let d: i128 = high as i128 - self as i128;
        if d <= usize::MAX as i128 {
            Some(d as usize)
        } else {
            None
        }
    }

    fn draw_any<G: Rng>(rng: &mut G) -> (r: Self) {
        draw::<i8, G>(rng)
    }

    fn draw_from<G: Rng>(rng: &mut G, low: Self, high: Self) -> (r: Self) {
        draw_below::<i8, G>(rng, low, high)
    }

    fn draw_within<G: Rng>(rng: &mut G, low: Self, high: Self) -> (r: Self) {
        draw_through::<i8, G>(rng, low, high)
    }
}

impl IntegerCarrier for i16 {
    open spec fn lowest() -> int {
        -0x8000
    }

    open spec fn highest() -> int {
        0x7fff
    }

    open spec fn of_int(i: int) -> Self {
        i as i16
    }

    proof fn lemma_within(x: Self) {
    }

    proof fn lemma_of_int(i: int) {
    }

    fn lowest_value() -> (r: Self) {
        i16::MIN
    }

    fn highest_value() -> (r: Self) {
        i16::MAX
    }

    fn is_below(self, other: Self) -> (b: bool) {
        self < other
    }

    fn offset(self, i: usize) -> (r: Self) {
        (self as i128 + i as i128) as i16
    }

    fn distance(self, high: Self) -> (d: Option<usize>) {
        let d: i128 = high as i128 - self as i128;
        if d <= usize::MAX as i128 {
            Some(d as usize)
        } else {
            None
        }
    }

    fn draw_any<G: Rng>(rng: &mut G) -> (r: Self) {
        draw::<i16, G>(rng)
    }

    fn draw_from<G: Rng>(rng: &mut G, low: Self, high: Self) -> (r: Self) {
        draw_below::<i16, G>(rng, low, high)
    }

    fn draw_within<G: Rng>(rng: &mut G, low: Self, high: Self) -> (r: Self) {
        draw_through::<i16, G>(rng, low, high)
    }
}

impl IntegerCarrier for i32 {
    open spec fn lowest() -> int {
        -0x80000000
    }

    open spec fn highest() -> int {
        0x7fffffff
    }

    open spec fn of_int(i: int) -> Self {
        i as i32
    }

    proof fn lemma_within(x: Self) {
    }

    proof fn lemma_of_int(i: int) {
    }

    fn lowest_value() -> (r: Self) {
        i32::MIN
    }

    fn highest_value() -> (r: Self) {
        i32::MAX
    }

    fn is_below(self, other: Self) -> (b: bool) {
        self < other
    }

    fn offset(self, i: usize) -> (r: Self) {
        (self as i128 + i as i128) as i32
    }

    fn distance(self, high: Self) -> (d: Option<usize>) {
        let d: i128 = high as i128 - self as i128;
        if d <= usize::MAX as i128 {
            Some(d as usize)
        } else {
            None
        }
    }

    fn draw_any<G: Rng>(rng: &mut G) -> (r: Self) {
        draw::<i32, G>(rng)
    }

    fn draw_from<G: Rng>(rng: &mut G, low: Self, high: Self) -> (r: Self) {
        draw_below::<i32, G>(rng, low, high)
    }

    fn draw_within<G: Rng>(rng: &mut G, low: Self, high: Self) -> (r: Self) {
        draw_through::<i32, G>(rng, low, high)
    }
}

impl IntegerCarrier for i64 {
    open spec fn lowest() -> int {
        -0x8000000000000000
    }

    open spec fn highest() -> int {
        0x7fffffffffffffff
    }

    open spec fn of_int(i: int) -> Self {
        i as i64
    }

    proof fn lemma_within(x: Self) {
    }

    proof fn lemma_of_int(i: int) {
    }

    fn lowest_value() -> (r: Self) {
        i64::MIN
    }

    fn highest_value() -> (r: Self) {
        i64::MAX
    }

    fn is_below(self, other: Self) -> (b: bool) {
        self < other
    }

    fn offset(self, i: usize) -> (r: Self) {
        (self as i128 + i as i128) as i64
    }

    fn distance(self, high: Self) -> (d: Option<usize>) {
        let d: i128 = high as i128 - self as i128;
        if d <= usize::MAX as i128 {
            Some(d as usize)
        } else {
            None
        }
    }

    fn draw_any<G: Rng>(rng: &mut G) -> (r: Self) {
        draw::<i64, G>(rng)
    }

    fn draw_from<G: Rng>(rng: &mut G, low: Self, high: Self) -> (r: Self) {
        draw_below::<i64, G>(rng, low, high)
    }

    fn draw_within<G: Rng>(rng: &mut G, low: Self, high: Self) -> (r: Self) {
        draw_through::<i64, G>(rng, low, high)
    }
}

impl IntegerCarrier for i128 {
    open spec fn lowest() -> int {
        -0x80000000000000000000000000000000
    }

    open spec fn highest() -> int {
        0x7fffffffffffffffffffffffffffffff
    }

    open spec fn of_int(i: int) -> Self {
        i as i128
    }

    proof fn lemma_within(x: Self) {
    }

    proof fn lemma_of_int(i: int) {
    }

    fn lowest_value() -> (r: Self) {
        i128::MIN
    }

    fn highest_value() -> (r: Self) {
        i128::MAX
    }

    fn is_below(self, other: Self) -> (b: bool) {
        self < other
    }

    fn offset(self, i: usize) -> (r: Self) {
        self + i as i128
    }

    fn distance(self, high: Self) -> (d: Option<usize>) {
        let d: u128 = if self >= 0 || high < 0 {
            (high - self) as u128
        } else {
            high as u128 + (-(self + 1)) as u128 + 1
        };
        if d <= usize::MAX as u128 {
            Some(d as usize)
        } else {
            None
        }
    }

    fn draw_any<G: Rng>(rng: &mut G) -> (r: Self) {
        draw::<i128, G>(rng)
    }

    fn draw_from<G: Rng>(rng: &mut G, low: Self, high: Self) -> (r: Self) {
        draw_below::<i128, G>(rng, low, high)
    }

    fn draw_within<G: Rng>(rng: &mut G, low: Self, high: Self) -> (r: Self) {
        draw_through::<i128, G>(rng, low, high)
    }
}

/// `rand` has no standard distribution over `usize`: a value of the whole type is drawn
/// from the closed range between its lowest and its highest value.
impl IntegerCarrier for usize {
    open spec fn lowest() -> int {
        0
    }

    open spec fn highest() -> int {
        usize::MAX as int
    }

    open spec fn of_int(i: int) -> Self {
        i as usize
    }

    proof fn lemma_within(x: Self) {
    }

    proof fn lemma_of_int(i: int) {
    }

    fn lowest_value() -> (r: Self) {
        usize::MIN
    }

    fn highest_value() -> (r: Self) {
        usize::MAX
    }

    fn is_below(self, other: Self) -> (b: bool) {
        self < other
    }

    fn offset(self, i: usize) -> (r: Self) {
        self + i
    }

    fn distance(self, high: Self) -> (d: Option<usize>) {
        Some(high - self)
    }

    fn draw_any<G: Rng>(rng: &mut G) -> (r: Self) {
        draw_through::<usize, G>(rng, usize::MIN, usize::MAX)
    }

    fn draw_from<G: Rng>(rng: &mut G, low: Self, high: Self) -> (r: Self) {
        draw_below::<usize, G>(rng, low, high)
    }

    fn draw_within<G: Rng>(rng: &mut G, low: Self, high: Self) -> (r: Self) {
        draw_through::<usize, G>(rng, low, high)
    }
}

/// The place of `x` among the values of `isize`, counted from the lowest.
fn place_of(x: isize) -> (p: usize)
    ensures
        p as int == x as int - isize::MIN as int,
{
    (x as i128 - isize::MIN as i128) as usize
}

/// The value of `isize` at place `p`, counted from the lowest.
fn at_place(p: usize) -> (x: isize)
    ensures
        x as int == p as int + isize::MIN as int,
{
    (p as i128 + isize::MIN as i128) as isize
}

/// `rand` has no uniform sampler for `isize`: a value is drawn by its place among the
/// values of the type, as a `usize`.
impl IntegerCarrier for isize {
    open spec fn lowest() -> int {
        isize::MIN as int
    }

    open spec fn highest() -> int {
        isize::MAX as int
    }

    open spec fn of_int(i: int) -> Self {
        i as isize
    }

    proof fn lemma_within(x: Self) {
    }

    proof fn lemma_of_int(i: int) {
    }

    fn lowest_value() -> (r: Self) {
        isize::MIN
    }

    fn highest_value() -> (r: Self) {
        isize::MAX
    }

    fn is_below(self, other: Self) -> (b: bool) {
        self < other
    }

    fn offset(self, i: usize) -> (r: Self) {
        (self as i128 + i as i128) as isize
    }

    fn distance(self, high: Self) -> (d: Option<usize>) {
        Some((high as i128 - self as i128) as usize)
    }

    fn draw_any<G: Rng>(rng: &mut G) -> (r: Self) {
        at_place(draw_through::<usize, G>(rng, usize::MIN, usize::MAX))
    }

    fn draw_from<G: Rng>(rng: &mut G, low: Self, high: Self) -> (r: Self) {
        at_place(draw_below::<usize, G>(rng, place_of(low), place_of(high)))
    }

    fn draw_within<G: Rng>(rng: &mut G, low: Self, high: Self) -> (r: Self) {
        at_place(draw_through::<usize, G>(rng, place_of(low), place_of(high)))
    }
}

impl<T: IntegerCarrier> RandomVariable for T {
    open spec fn sample_space() -> Seq<T> {
        Seq::new((T::highest() - T::lowest() + 1) as nat, |i: int| T::of_int(T::lowest() + i))
    }

    fn sample_space_len() -> (n: Option<usize>) {
        let low = T::lowest_value();
        let high = T::highest_value();
        proof {
            T::lemma_within(low);
        }
        match low.distance(high) {
            Some(d) => if d < usize::MAX {
                Some(d + 1)
            } else {
                None
            },
            None => None,
        }
    }

    fn sample_space_at(i: usize) -> (r: T) {
        let low = T::lowest_value();
        proof {
            T::lemma_within(low);
        }
        let r = low.offset(i);
        proof {
            T::lemma_within(r);
        }
        r
    }

    fn sample<G: Rng>(rng: &mut G) -> (r: T) {
        let r = T::draw_any(rng);
        proof {
            T::lemma_within(r);
            assert(Self::sample_space()[r as int - T::lowest()] == r);
        }
        r
    }
}

} // verus!
