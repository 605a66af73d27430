pub mod counter;
pub mod enumerator;
pub mod population_sampler;
pub mod sampler;
pub mod unique_enumerator;
