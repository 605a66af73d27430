use std::collections::HashSet;

use rand::SeedableRng;
use rand_chacha::ChaCha8Rng;
use rand_functors::multiples::least_common_multiple;
use rand_functors::random_variable_ranges::Whole;
use rand_functors::random_variables::IntegerCarrier;
use rand_functors::{Enumerator, Functor, RandomVariable, RandomVariableRange};

fn listed<R: RandomVariable>() -> Vec<R> {
    (0..R::sample_space_len().unwrap())
        .map(R::sample_space_at)
        .collect()
}

fn listed_range<R: RandomVariable, Rg: RandomVariableRange<R>>(range: Rg) -> Vec<R> {
    (0..range.sample_space_len().unwrap())
        .map(|i| range.sample_space_at(i))
        .collect()
}

#[test]
fn test_sample_space_of_bool() {
    assert_eq!(listed::<bool>(), vec![false, true]);
}

#[test]
fn test_sample_spaces_of_small_integers() {
    assert_eq!(listed::<u8>(), (u8::MIN..=u8::MAX).collect::<Vec<u8>>());
    assert_eq!(listed::<i8>(), (i8::MIN..=i8::MAX).collect::<Vec<i8>>());
    assert_eq!(listed::<u16>(), (u16::MIN..=u16::MAX).collect::<Vec<u16>>());
    assert_eq!(listed::<i16>(), (i16::MIN..=i16::MAX).collect::<Vec<i16>>());
}

#[test]
fn test_sample_space_holds_each_value_once() {
    let space = listed::<i8>();
    assert_eq!(space.len(), 256);
    assert_eq!(space.iter().copied().collect::<HashSet<i8>>().len(), 256);
    let mut rng = ChaCha8Rng::seed_from_u64(0);
    let functor: Vec<()> = Functor::pure(());
    let drawn: Vec<i8> = Enumerator::fmap_rand(functor, &mut rng, |_, r: i8| r);
    assert_eq!(drawn, space);
}

#[test]
fn test_wide_sample_spaces_are_read_by_position() {
    assert_eq!(<u32 as RandomVariable>::sample_space_len(), Some(1usize << 32));
    assert_eq!(<i32 as RandomVariable>::sample_space_len(), Some(1usize << 32));
    assert_eq!(<u64 as RandomVariable>::sample_space_len(), None);
    assert_eq!(<i64 as RandomVariable>::sample_space_len(), None);
    assert_eq!(<u128 as RandomVariable>::sample_space_len(), None);
    assert_eq!(<i128 as RandomVariable>::sample_space_len(), None);
    assert_eq!(<bool as RandomVariable>::sample_space_len(), Some(2));
    assert_eq!(<i16 as RandomVariable>::sample_space_len(), Some(65536));
    assert_eq!(<u32 as RandomVariable>::sample_space_at(4_000_000_000), 4_000_000_000u32);
    assert_eq!(<i32 as RandomVariable>::sample_space_at(0), i32::MIN);
    assert_eq!(<i32 as RandomVariable>::sample_space_at(u32::MAX as usize), i32::MAX);
    assert_eq!(<u64 as RandomVariable>::sample_space_at(usize::MAX), u64::MAX);
    assert_eq!(<i64 as RandomVariable>::sample_space_at(0), i64::MIN);
    assert_eq!(<i64 as RandomVariable>::sample_space_at(usize::MAX), i64::MAX);
    assert_eq!(<u128 as RandomVariable>::sample_space_at(12), 12u128);
    assert_eq!(<i128 as RandomVariable>::sample_space_at(12), i128::MIN + 12);
}

#[test]
fn test_half_open_ranges() {
    assert_eq!(listed_range(3u8..7), vec![3, 4, 5, 6]);
    assert_eq!(listed_range(-2i64..2), vec![-2, -1, 0, 1]);
    assert_eq!(listed_range(u128::MAX - 2..u128::MAX), vec![u128::MAX - 2, u128::MAX - 1]);
    assert_eq!(listed_range(i128::MIN..i128::MIN + 2), vec![i128::MIN, i128::MIN + 1]);
    assert_eq!(listed_range(7u16..7), Vec::<u16>::new());
    assert_eq!(listed_range(9i32..-9), Vec::<i32>::new());
}

#[test]
fn test_closed_ranges() {
    assert_eq!(listed_range(3u8..=7), vec![3, 4, 5, 6, 7]);
    assert_eq!(listed_range(-1i16..=1), vec![-1, 0, 1]);
    assert_eq!(listed_range(u64::MAX - 1..=u64::MAX), vec![u64::MAX - 1, u64::MAX]);
    assert_eq!(listed_range(i128::MAX..=i128::MAX), vec![i128::MAX]);
    assert_eq!(listed_range(5u32..=4), Vec::<u32>::new());
    assert_eq!((217u8..=255).sample_space_len(), Some(39));
    assert_eq!((0u64..=u64::MAX).sample_space_len(), None);
    assert_eq!((0u64..u64::MAX).sample_space_len(), Some(usize::MAX));
    assert_eq!((i128::MIN..i128::MAX).sample_space_len(), None);
    assert_eq!((217u8..=255).sample_space_at(0), 217);
    assert_eq!((217u8..=255).sample_space_at(38), 255);
}

#[test]
fn test_closed_range_that_was_walked_to_its_end_is_empty() {
    let mut range = 1u8..=3;
    assert_eq!(range.by_ref().count(), 3);
    assert_eq!(range.sample_space_len(), Some(0));
}

#[test]
fn test_whole_range_is_the_sample_space() {
    let whole = Whole::<u8>::new();
    assert_eq!(listed_range(whole), listed::<u8>());
}

#[test]
fn test_ranges_sample_within_their_bounds() {
    let mut rng = ChaCha8Rng::seed_from_u64(2);
    let mut seen = HashSet::new();
    for _ in 0..300 {
        let r = (-1i8..=1).sample(&mut rng);
        assert!((-1..=1).contains(&r));
        seen.insert(r);
        let s = (1000u32..1003).sample(&mut rng);
        assert!((1000..1003).contains(&s));
        let w: u8 = Whole::<u8>::new().sample(&mut rng);
        assert!(listed::<u8>().contains(&w));
    }
    assert_eq!(seen.len(), 3);
}

#[test]
fn test_integer_carrier_steps() {
    assert_eq!(250u8.offset(5), 255);
    assert_eq!((-128i8).offset(255), 127);
    assert_eq!(i128::MIN.offset(3), i128::MIN + 3);
    assert_eq!(3u8.distance(200), Some(197));
    assert_eq!(i64::MIN.distance(i64::MAX), Some(usize::MAX));
    assert_eq!(i128::MIN.distance(i128::MAX), None);
    assert_eq!(0u128.distance(u128::MAX), None);
    assert_eq!((-5i128).distance(5), Some(10));
    assert!(3i16.is_below(4));
    assert!(!4i16.is_below(4));
    assert_eq!(<i32 as IntegerCarrier>::lowest_value(), i32::MIN);
    assert_eq!(<u64 as IntegerCarrier>::highest_value(), u64::MAX);
}

#[test]
fn test_least_common_multiple_of_several() {
    assert_eq!(least_common_multiple(&vec![4usize, 6, 10]), 60);
    assert_eq!(least_common_multiple(&vec![7usize]), 7);
    assert_eq!(least_common_multiple(&vec![3u8, 3, 3]), 3);
    assert_eq!(least_common_multiple(&vec![1u64, 11, 17]), 187);
}
