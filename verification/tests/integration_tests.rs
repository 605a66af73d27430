use std::collections::HashMap;

use rand::{Rng, SeedableRng};
use rand_chacha::ChaCha8Rng;
use rand_functors::{Counter, Enumerator, Functor, PopulationSampler, Sampler};

#[derive(Clone, Copy, Debug, Eq, Hash, PartialEq)]
pub struct State {
    a: u16,
    b: [u8; 2],
}

fn flip(mut s: State, r: bool) -> State {
    if r {
        s.a -= 1
    }
    s
}

fn settle(s: State) -> State {
    State {
        a: s.a.wrapping_sub(1),
        b: s.b,
    }
}

fn shift_b(mut s: State, r: u8) -> State {
    s.b[0] = s.b[0].wrapping_add(r);
    s
}

fn shift_a(mut s: State, r: u16) -> State {
    s.a = s.a.wrapping_add(r);
    s
}

fn sampled_process(rng: &mut impl Rng, mut s: State) -> State {
    s.a += 2;
    let mut sc: State = Functor::pure(s);
    sc = Sampler::fmap_rand(sc, rng, flip);
    sc = Sampler::fmap(sc, settle);
    sc = Sampler::fmap_rand(sc, rng, shift_b);
    Sampler::fmap_rand(sc, rng, shift_a)
}

fn bounded_process<const N: usize>(rng: &mut impl Rng, mut s: State) -> Vec<State> {
    s.a += 2;
    let mut sc: Vec<State> = Functor::pure(s);
    sc = PopulationSampler::<N>::fmap_rand(sc, rng, flip);
    sc = PopulationSampler::<N>::fmap(sc, settle);
    sc = PopulationSampler::<N>::fmap_rand(sc, rng, shift_b);
    PopulationSampler::<N>::fmap_rand(sc, rng, shift_a)
}

fn enumerated_process(rng: &mut impl Rng, mut s: State) -> Vec<State> {
    s.a += 2;
    let mut sc: Vec<State> = Functor::pure(s);
    sc = Enumerator::fmap_rand(sc, rng, flip);
    sc = Enumerator::fmap(sc, settle);
    sc = Enumerator::fmap_rand(sc, rng, shift_b);
    Enumerator::fmap_rand(sc, rng, shift_a)
}

fn counted_process(
    rng: &mut impl Rng,
    mut s: State,
) -> HashMap<State, usize, ahash::RandomState> {
    s.a += 2;
    let mut sc: HashMap<State, usize, ahash::RandomState> = Functor::pure(s);
    sc = Counter::fmap_rand(sc, rng, flip);
    sc = Counter::fmap(sc, settle);
    sc = Counter::fmap_rand(sc, rng, shift_b);
    Counter::fmap_rand(sc, rng, shift_a)
}

#[test]
fn test_sampler() {
    let mut rng = ChaCha8Rng::seed_from_u64(0);
    let s = State { a: 45, b: [5, 98] };
    let output = sampled_process(&mut rng, s);
    assert_eq!(
        output,
        State {
            a: 49252,
            b: [108, 98],
        }
    );
}

#[test]
fn test_population_sampler() {
    const N: usize = 103;

    let mut rng = ChaCha8Rng::seed_from_u64(0);
    let s = State { a: 14, b: [90, 19] };
    let output = bounded_process::<N>(&mut rng, s);
    assert_eq!(output.len(), N);

    let counts = output.iter().fold(HashMap::new(), |mut map, s| {
        *map.entry(s).or_insert(0) += 1;
        map
    });
    assert!(counts.values().copied().all(|count| count <= 2));

    assert!(output.iter().all(|s| s.b[1] == 19));
}

#[test]
fn test_enumerator() {
    let mut rng = ChaCha8Rng::seed_from_u64(0);
    let s = State { a: 74, b: [0, 47] };
    let output = enumerated_process(&mut rng, s);

    assert_eq!(
        output.len(),
        2 * 2_usize.pow(u8::BITS) * 2_usize.pow(u16::BITS)
    );

    let a_counts = output.iter().fold(HashMap::new(), |mut map, s| {
        *map.entry(s.a).or_insert(0) += 1;
        map
    });
    assert_eq!(a_counts.len(), 2_usize.pow(u16::BITS));
    assert!(a_counts
        .values()
        .all(|count| *count == 2 * 2_usize.pow(u8::BITS)));

    let b0_counts = output.iter().fold(HashMap::new(), |mut map, s| {
        *map.entry(s.b[0]).or_insert(0) += 1;
        map
    });
    assert_eq!(b0_counts.len(), 2_usize.pow(u8::BITS));
    assert!(b0_counts
        .values()
        .all(|count| *count == 2 * 2_usize.pow(u16::BITS)));

    assert!(output.iter().all(|s| s.b[1] == 47));
}

#[test]
fn test_counter() {
    let mut rng = ChaCha8Rng::seed_from_u64(0);
    let s = State {
        a: 5286,
        b: [253, 199],
    };
    let output = counted_process(&mut rng, s);

    assert_eq!(output.len(), 2_usize.pow(u8::BITS) * 2_usize.pow(u16::BITS));

    assert!(output.values().copied().all(|count| count == 2));

    let a_counts = output.iter().fold(HashMap::new(), |mut map, (s, count)| {
        *map.entry(s.a).or_insert(0) += count;
        map
    });
    assert_eq!(a_counts.len(), 2_usize.pow(u16::BITS));
    assert!(a_counts
        .values()
        .all(|count| *count == 2 * 2_usize.pow(u8::BITS)));

    let b0_counts = output.iter().fold(HashMap::new(), |mut map, (s, count)| {
        *map.entry(s.b[0]).or_insert(0) += count;
        map
    });
    assert_eq!(b0_counts.len(), 2_usize.pow(u8::BITS));
    assert!(b0_counts
        .values()
        .all(|count| *count == 2 * 2_usize.pow(u16::BITS)));

    assert!(output.iter().all(|(s, _)| s.b[1] == 199));
}
