//! An abstraction over different ways of evaluating random processes expressed as
//! functions of both deterministic and stochastic data.
//!
//! A process is written once, as a series of steps on the [`Functor`] of a strategy. The
//! strategy decides what the steps mean: [`Sampler`] follows one course of the process,
//! [`Enumerator`] lists every outcome, [`Counter`] counts the ways that lead to each,
//! [`UniqueEnumerator`] keeps each outcome once, and [`PopulationSampler`] keeps a
//! bounded number of them.

pub use functors::Functor;
pub use inner::Inner;
pub use random_variable_ranges::RandomVariableRange;
pub use random_variables::RandomVariable;
pub use strategies::counter::Counter;
pub use strategies::enumerator::Enumerator;
pub use strategies::population_sampler::PopulationSampler;
pub use strategies::sampler::Sampler;
pub use strategies::unique_enumerator::UniqueEnumerator;
pub use weights::Weight;

pub mod bags;
pub mod functors;
pub mod inner;
pub mod laws;
pub mod lifted;
pub mod multiples;
pub mod random_variable_ranges;
pub mod random_variables;
pub mod strategies;
pub mod weighted;
pub mod weights;
