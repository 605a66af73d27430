use rand::{Rng, SeedableRng};
use rand_chacha::ChaCha8Rng;
use rand_functors::{Enumerator, Functor, RandomVariable};

#[derive(Clone, Debug, Eq, Hash, PartialEq)]
pub struct Pair<A: Clone + RandomVariable, B: Clone + RandomVariable> {
    x: A,
    y: B,
}

impl<A: Clone + RandomVariable, B: Clone + RandomVariable> RandomVariable for Pair<A, B> {
    fn sample_space() -> vstd::seq::Seq<Self> {
        unreachable!()
    }

    fn sample_space_len() -> Option<usize> {
        A::sample_space_len()?.checked_mul(B::sample_space_len()?)
    }

    fn sample_space_at(i: usize) -> Self {
        let width = B::sample_space_len().unwrap_or(usize::MAX);
        Pair {
            x: A::sample_space_at(i / width),
            y: B::sample_space_at(i % width),
        }
    }

    fn sample<G: Rng>(rng: &mut G) -> Self {
        Pair {
            x: A::sample(rng),
            y: B::sample(rng),
        }
    }
}

#[test]
fn test_enumerator_on_custom_random_variable() {
    let mut rng = ChaCha8Rng::seed_from_u64(0);
    let functor: Vec<()> = Functor::pure(());
    let enumeration: Vec<Pair<bool, u8>> = Enumerator::fmap_rand(functor, &mut rng, |_, pair| pair);
    assert_eq!(
        enumeration,
        [false, true]
            .into_iter()
            .flat_map(|x| (u8::MIN..=u8::MAX).map(move |y| { Pair { x, y } }))
            .collect::<Vec<_>>()
    );
}
