//! What holds of the strategies whatever function is lifted: the functor laws of every
//! strategy, and how the strategies agree with each other.

pub mod agreement;
pub mod flattening;
pub mod functor_laws;
pub mod masses;
