use std::collections::{HashMap, HashSet};

use rand::SeedableRng;
use rand_chacha::ChaCha8Rng;
use rand_functors::{
    Counter, Enumerator, Functor, PopulationSampler, Sampler, UniqueEnumerator, Weight,
};

fn tally(v: &[u8]) -> HashMap<u8, usize> {
    let mut map = HashMap::new();
    for x in v {
        *map.entry(*x).or_insert(0usize) += 1;
    }
    map
}

fn weighted(pairs: &[(u8, usize)]) -> HashMap<u8, usize> {
    pairs.iter().copied().collect()
}

fn halve(x: u8) -> u8 {
    x / 2
}

fn add_three(x: u8) -> u8 {
    x.wrapping_add(3)
}

fn mix(d: u8, r: u8) -> u8 {
    (d % 4).wrapping_add(r % 3)
}

fn children_listed(d: u8) -> Vec<u8> {
    match d % 3 {
        0 => vec![d],
        1 => vec![d, d + 1],
        _ => vec![d, d, 100],
    }
}

fn children_counted(d: u8) -> HashMap<u8, usize> {
    tally(&children_listed(d))
}

fn children_kept(d: u8) -> HashSet<u8> {
    children_listed(d).into_iter().collect()
}

#[test]
fn test_pure_of_each_functor() {
    let single: u8 = Functor::pure(7u8);
    assert_eq!(single, 7);
    let listed: Vec<u8> = Functor::pure(7u8);
    assert_eq!(listed, vec![7]);
    let counted: HashMap<u8, usize> = Functor::pure(7u8);
    assert_eq!(counted, weighted(&[(7, 1)]));
    let kept: HashSet<u8> = Functor::pure(7u8);
    assert_eq!(kept.len(), 1);
    assert!(kept.contains(&7));
}

#[test]
fn test_identity_law_on_pure() {
    let id = |x: u8| x;
    let single: u8 = Functor::pure(7u8);
    assert_eq!(Sampler::fmap(single, id), 7);
    let listed: Vec<u8> = Functor::pure(7u8);
    assert_eq!(Enumerator::fmap(listed.clone(), id), listed);
    assert_eq!(PopulationSampler::<4>::fmap(listed.clone(), id), listed);
    let counted: HashMap<u8, usize> = Functor::pure(7u8);
    assert_eq!(Counter::fmap(counted.clone(), id), counted);
    let kept: HashSet<u8> = Functor::pure(7u8);
    assert_eq!(UniqueEnumerator::fmap(kept.clone(), id), kept);
}

#[test]
fn test_composition_law() {
    let both = |x: u8| add_three(halve(x));
    assert_eq!(
        Sampler::fmap(Sampler::fmap(9u8, halve), add_three),
        Sampler::fmap(9u8, both)
    );
    let listed = vec![9u8, 8, 9, 2, 3];
    assert_eq!(
        Enumerator::fmap(Enumerator::fmap(listed.clone(), halve), add_three),
        Enumerator::fmap(listed.clone(), both)
    );
    assert_eq!(
        PopulationSampler::<9>::fmap(PopulationSampler::<9>::fmap(listed.clone(), halve), add_three),
        PopulationSampler::<9>::fmap(listed.clone(), both)
    );
    let counted = weighted(&[(9, 2), (8, 1), (2, 5), (3, 1)]);
    assert_eq!(
        Counter::fmap(Counter::fmap(counted.clone(), halve), add_three),
        Counter::fmap(counted, both)
    );
    let kept: HashSet<u8> = listed.iter().copied().collect();
    assert_eq!(
        UniqueEnumerator::fmap(UniqueEnumerator::fmap(kept.clone(), halve), add_three),
        UniqueEnumerator::fmap(kept, both)
    );
}

#[test]
fn test_counter_map_merges_weights() {
    let counted = weighted(&[(9, 2), (8, 1), (2, 5), (3, 1)]);
    let out = Counter::fmap(counted, halve);
    assert_eq!(out, weighted(&[(4, 3), (1, 6)]));
}

#[test]
fn test_enumerator_order_of_product() {
    let mut rng = ChaCha8Rng::seed_from_u64(0);
    let out = Enumerator::fmap_rand_range(vec![10u8, 20], 1u8..4, &mut rng, |d, r: u8| d + r);
    assert_eq!(out, vec![11, 12, 13, 21, 22, 23]);
    let flags = Enumerator::fmap_rand(vec![1u8, 2], &mut rng, |d, r: bool| (d, r));
    assert_eq!(flags, vec![(1, false), (1, true), (2, false), (2, true)]);
}

#[test]
fn test_empty_range_gives_nothing() {
    let mut rng = ChaCha8Rng::seed_from_u64(0);
    let listed = Enumerator::fmap_rand_range(vec![10u8, 20], 4u8..4, &mut rng, |d, r: u8| d + r);
    assert!(listed.is_empty());
    let counted = Counter::fmap_rand_range(weighted(&[(1, 2)]), 5u8..=4, &mut rng, mix);
    assert!(counted.is_empty());
    let kept: HashSet<u8> = Functor::pure(1u8);
    let kept = UniqueEnumerator::fmap_rand_range(kept, 9u8..3, &mut rng, mix);
    assert!(kept.is_empty());
}

#[test]
fn test_projection_and_weight_through_a_process() {
    let mut rng = ChaCha8Rng::seed_from_u64(0);
    let mut listed: Vec<u8> = Functor::pure(5u8);
    let mut counted: HashMap<u8, usize> = Functor::pure(5u8);
    assert_eq!(tally(&listed), counted);

    listed = Enumerator::fmap_rand_range(listed, 0u8..=6, &mut rng, mix);
    counted = Counter::fmap_rand_range(counted, 0u8..=6, &mut rng, mix);
    assert_eq!(tally(&listed), counted);
    assert_eq!(counted.values().sum::<usize>(), listed.len());

    listed = Enumerator::fmap(listed, halve);
    counted = Counter::fmap(counted, halve);
    assert_eq!(tally(&listed), counted);
    assert_eq!(counted.values().sum::<usize>(), listed.len());

    listed = Enumerator::fmap_rand(listed, &mut rng, |d, r: bool| if r { d } else { d + 7 });
    counted = Counter::fmap_rand(counted, &mut rng, |d, r: bool| if r { d } else { d + 7 });
    assert_eq!(tally(&listed), counted);
    assert_eq!(counted.values().sum::<usize>(), listed.len());
    assert_eq!(listed.len(), 7 * 2);

    listed = Enumerator::fmap_flat(listed, children_listed);
    counted = Counter::fmap_flat(counted, children_counted);
    assert_eq!(tally(&listed), counted);
    assert_eq!(counted.values().sum::<usize>(), listed.len());
}

#[test]
fn test_support_through_a_process() {
    let mut rng = ChaCha8Rng::seed_from_u64(0);
    let mut listed: Vec<u8> = Functor::pure(5u8);
    let mut kept: HashSet<u8> = Functor::pure(5u8);

    listed = Enumerator::fmap_rand_range(listed, 0u8..=6, &mut rng, mix);
    kept = UniqueEnumerator::fmap_rand_range(kept, 0u8..=6, &mut rng, mix);
    assert_eq!(listed.iter().copied().collect::<HashSet<u8>>(), kept);

    listed = Enumerator::fmap(listed, halve);
    kept = UniqueEnumerator::fmap(kept, halve);
    assert_eq!(listed.iter().copied().collect::<HashSet<u8>>(), kept);

    listed = Enumerator::fmap_rand(listed, &mut rng, |d, r: bool| if r { d } else { d + 7 });
    kept = UniqueEnumerator::fmap_rand(kept, &mut rng, |d, r: bool| if r { d } else { d + 7 });
    assert_eq!(listed.iter().copied().collect::<HashSet<u8>>(), kept);

    listed = Enumerator::fmap_flat(listed, children_listed);
    kept = UniqueEnumerator::fmap_flat(kept, children_kept);
    assert_eq!(listed.iter().copied().collect::<HashSet<u8>>(), kept);
}

#[test]
fn test_enumerator_flatten_repeats_to_common_length() {
    let out = Enumerator::flatten(vec![vec![1u8], vec![2, 3]]);
    assert_eq!(out, vec![1, 1, 2, 3]);
    let out = Enumerator::flatten(vec![vec![1u8, 2], vec![3, 4, 5], vec![6, 7, 8, 9]]);
    assert_eq!(out.len(), 3 * 12);
    assert_eq!(&out[..12], &[1, 2, 1, 2, 1, 2, 1, 2, 1, 2, 1, 2]);
    assert_eq!(&out[12..24], &[3, 4, 5, 3, 4, 5, 3, 4, 5, 3, 4, 5]);
    assert_eq!(&out[24..], &[6, 7, 8, 9, 6, 7, 8, 9, 6, 7, 8, 9]);
}

#[test]
fn test_flatten_with_an_empty_child_is_empty() {
    let listed = Enumerator::flatten(vec![vec![1u8, 2], vec![], vec![3]]);
    assert!(listed.is_empty());
    let counted = Counter::flatten(vec![
        (weighted(&[(1, 2)]), 1usize),
        (HashMap::new(), 4usize),
    ]);
    assert!(counted.is_empty());
}

#[test]
fn test_flatten_of_nothing_is_empty() {
    let listed: Vec<u8> = Enumerator::flatten(Vec::new());
    assert!(listed.is_empty());
    let counted: HashMap<u8, usize> = Counter::flatten(Vec::new());
    assert!(counted.is_empty());
    let listed: Vec<u8> = Enumerator::fmap_flat(Vec::<u8>::new(), children_listed);
    assert!(listed.is_empty());
    let counted = Counter::fmap_flat(HashMap::<u8, usize>::new(), children_counted);
    assert!(counted.is_empty());
    let kept = UniqueEnumerator::fmap_flat(HashSet::<u8>::new(), children_kept);
    assert!(kept.is_empty());
}

#[test]
fn test_counter_flatten_rescales_by_least_common_multiple() {
    let out = Counter::flatten(vec![
        (weighted(&[(10, 1), (11, 1)]), 1usize),
        (weighted(&[(20, 1), (21, 1), (22, 1)]), 2usize),
    ]);
    assert_eq!(
        out,
        weighted(&[(10, 3), (11, 3), (20, 4), (21, 4), (22, 4)])
    );
    assert_eq!(out.values().sum::<usize>(), 6 * (1 + 2));
}

#[test]
fn test_counter_flat_map_mass_preservation() {
    let counted = weighted(&[(3, 2), (4, 5), (5, 1)]);
    let outer_sum: usize = counted.values().sum();
    let out = Counter::fmap_flat(counted, children_counted);
    assert_eq!(out.values().sum::<usize>(), 6 * outer_sum);
    assert_eq!(out[&3], 6 * 2);
    assert_eq!(out[&4], 3 * 5);
    assert_eq!(out[&100], 2 * 1);
    assert_eq!(out[&5], 3 * 5 + 2 * 2);
}

#[test]
fn test_counter_total_and_pour() {
    let child = weighted(&[(1, 2), (2, 3)]);
    assert_eq!(Counter::<std::collections::hash_map::RandomState, usize>::total(&child), 5);
    let mut out = weighted(&[(2, 1), (9, 4)]);
    Counter::pour(&mut out, &child, 3, 2);
    assert_eq!(out, weighted(&[(1, 12), (2, 19), (9, 4)]));
}

#[test]
fn test_population_sampler_bound_after_every_operator() {
    let mut rng = ChaCha8Rng::seed_from_u64(7);
    let mut kept: Vec<u8> = Functor::pure(5u8);
    kept = PopulationSampler::<5>::fmap_rand_range(kept, 0u8..=6, &mut rng, mix);
    assert_eq!(kept.len(), 5);
    kept = PopulationSampler::<5>::fmap(kept, halve);
    assert_eq!(kept.len(), 5);
    kept = PopulationSampler::<5>::fmap_rand(kept, &mut rng, |d, r: bool| if r { d } else { d + 7 });
    assert_eq!(kept.len(), 5);
    kept = PopulationSampler::<5>::fmap_rand_range(kept, 3u8..3, &mut rng, mix);
    assert!(kept.is_empty());
}

#[test]
fn test_population_sampler_within_bound_keeps_all_in_order() {
    let mut rng = ChaCha8Rng::seed_from_u64(7);
    let out = PopulationSampler::<6>::fmap_rand_range(vec![10u8, 20], 1u8..4, &mut rng, |d, r: u8| d + r);
    assert_eq!(out, vec![11, 12, 13, 21, 22, 23]);
}

#[test]
fn test_population_sampler_keeps_a_part_of_the_whole() {
    let mut rng = ChaCha8Rng::seed_from_u64(3);
    let full = vec![1u8, 2, 2, 3, 3, 3, 4, 4, 4, 4];
    let out = PopulationSampler::<4>::shrink_to_capacity(full.clone(), &mut rng);
    assert_eq!(out.len(), 4);
    let whole = tally(&full);
    for (value, count) in tally(&out) {
        assert!(count <= whole[&value]);
    }
}

#[test]
fn test_discard_moves_the_last_into_the_gap() {
    assert_eq!(PopulationSampler::<1>::discard(vec![1u8, 2, 3, 4], 1), vec![1, 4, 3]);
    assert_eq!(PopulationSampler::<1>::discard(vec![1u8, 2, 3, 4], 3), vec![1, 2, 3]);
    assert_eq!(PopulationSampler::<1>::discard(vec![9u8], 0), Vec::<u8>::new());
}

#[test]
fn test_sampler_draws_within_the_range() {
    let mut rng = ChaCha8Rng::seed_from_u64(11);
    for _ in 0..200 {
        let below = Sampler::fmap_rand_range(0i16, -3i16..2, &mut rng, |_, r: i16| r);
        assert!((-3..2).contains(&below));
        let through = Sampler::fmap_rand_range(0u64, 40u64..=41, &mut rng, |_, r: u64| r);
        assert!((40..=41).contains(&through));
    }
    let only = Sampler::fmap_rand_range(1u8, 77u8..=77, &mut rng, |d, r: u8| d + r);
    assert_eq!(only, 78);
}

#[test]
fn test_sampler_draws_every_value_in_time() {
    let mut rng = ChaCha8Rng::seed_from_u64(5);
    let mut seen_true = false;
    let mut seen_false = false;
    let mut seen = HashSet::new();
    for _ in 0..400 {
        if Sampler::fmap_rand(0u8, &mut rng, |_, r: bool| r) {
            seen_true = true;
        } else {
            seen_false = true;
        }
        seen.insert(Sampler::fmap_rand_range(0u8, 10u8..14, &mut rng, |_, r: u8| r));
    }
    assert!(seen_true && seen_false);
    assert_eq!(seen, [10u8, 11, 12, 13].into_iter().collect::<HashSet<u8>>());
}

#[test]
fn test_unique_enumerator_keeps_each_result_once() {
    let mut rng = ChaCha8Rng::seed_from_u64(0);
    let kept: HashSet<u8> = [9u8, 8, 2, 3].into_iter().collect();
    let out = UniqueEnumerator::fmap(kept.clone(), halve);
    assert_eq!(out, [4u8, 1].into_iter().collect::<HashSet<u8>>());
    let out = UniqueEnumerator::fmap_rand_range(kept, 0u8..=1, &mut rng, |d, r: u8| d / 2 + r);
    assert_eq!(out, [1u8, 2, 4, 5].into_iter().collect::<HashSet<u8>>());
}

#[test]
fn test_counter_with_other_weight_types() {
    let mut rng = ChaCha8Rng::seed_from_u64(0);
    let functor: HashMap<u8, u64> = Functor::pure(9u8);
    let spread = Counter::fmap_rand_range(functor, 0u8..=16, &mut rng, |d: u8, r: u8| {
        d.saturating_sub(r)
    });
    assert_eq!(spread[&0], 8u64);
    let out = Counter::fmap_flat(spread, |d| {
        if d != 0 {
            Functor::pure(d)
        } else {
            [(200u8, 1u64), (201, 2)].into_iter().collect::<HashMap<u8, u64>>()
        }
    });
    assert_eq!(out.values().sum::<u64>(), 17 * 3);
    assert_eq!(out[&1], 3);
    assert_eq!(out[&200], 8);
    assert_eq!(out[&201], 16);

    let small: HashMap<u8, u8> = [(1u8, 2u8), (2, 3), (3, 250)].into_iter().collect();
    let merged = Counter::fmap(small, |d| d % 2);
    assert_eq!(merged[&0], 3u8);
    assert_eq!(merged[&1], 252u8);
}

#[test]
fn test_weight_arithmetic() {
    assert_eq!(<u8 as Weight>::zero(), 0);
    assert_eq!(<u128 as Weight>::one(), 1);
    assert!(0u16.is_zero());
    assert!(!7u16.is_zero());
    assert_eq!(200u8.plus(55), 255);
    assert_eq!(12u32.times(12), 144);
    assert_eq!(60usize.over(7), 8);
    assert_eq!(200u8.checked_plus(56), None);
    assert_eq!(200u8.checked_plus(55), Some(255));
    assert_eq!(16u8.checked_times(16), None);
    assert_eq!(15u8.checked_times(17), Some(255));
    assert_eq!(<u8 as Weight>::from_count(255), Some(255));
    assert_eq!(<u8 as Weight>::from_count(256), None);
    assert_eq!(<u128 as Weight>::from_count(usize::MAX), Some(usize::MAX as u128));
    assert_eq!(4u64.least_multiple(6), 12);
    assert_eq!(7u8.least_multiple(36), 252);
    assert_eq!(1u128.least_multiple(1), 1);
}
