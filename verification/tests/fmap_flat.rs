use std::collections::HashMap;

use rand::SeedableRng;
use rand_chacha::ChaCha8Rng;
use rand_functors::{Counter, Enumerator, Functor, Sampler};

#[test]
fn test_flat_map_sampler() {
    let mut rng = ChaCha8Rng::seed_from_u64(0);
    let mut functor: u8 = Functor::pure(11);
    functor = Sampler::fmap_rand_range(functor, 0..=16, &mut rng, |d: u8, r: u8| {
        d.saturating_sub(r)
    });
    let output = Sampler::fmap_flat(functor, |d| {
        if d != 0 {
            Functor::pure(d)
        } else {
            let f: u8 = Functor::pure(d);
            Sampler::fmap_rand_range(f, 200..=210, &mut rng, |_, r: u8| r)
        }
    });
    assert_eq!(output, 207);
}

#[test]
fn test_flat_map_enumerator() {
    let mut rng = ChaCha8Rng::seed_from_u64(0);
    let mut functor: Vec<u8> = Functor::pure(9);
    functor = Enumerator::fmap_rand_range(functor, 0..=16, &mut rng, |d: u8, r: u8| {
        d.saturating_sub(r)
    });
    let output = Enumerator::fmap_flat(functor, |d| {
        if d != 0 {
            Functor::pure(d)
        } else {
            let f: Vec<u8> = Functor::pure(d);
            Enumerator::fmap_rand_range(f, 200..=210, &mut rng, |_, r: u8| r)
        }
    });

    assert_eq!(output.len(), 17 * 11);

    let counts = output.iter().fold(HashMap::new(), |mut map, d| {
        *map.entry(d).or_insert(0usize) += 1;
        map
    });

    for i in 1..=9 {
        assert_eq!(counts[&i], 11);
    }
    for i in 200..=210 {
        assert_eq!(counts[&i], 8);
    }
}

#[test]
fn test_flat_map_counter() {
    let mut rng = ChaCha8Rng::seed_from_u64(0);
    let mut functor: HashMap<u8, usize> = Functor::pure(9);
    functor = Counter::fmap_rand_range(functor, 0..=16, &mut rng, |d: u8, r: u8| {
        d.saturating_sub(r)
    });
    let output = Counter::fmap_flat(functor, |d| {
        if d != 0 {
            Functor::pure(d)
        } else {
            let f: HashMap<u8, usize> = Functor::pure(d);
            Counter::fmap_rand_range(f, 200..=210, &mut rng, |_, r: u8| r)
        }
    });

    assert_eq!(output.len(), 20);
    assert_eq!(output.values().sum::<usize>(), 17 * 11);

    for i in 1..=9 {
        assert_eq!(output[&i], 11);
    }
    for i in 200..=210 {
        assert_eq!(output[&i], 8);
    }
}
