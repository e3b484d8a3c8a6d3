//! Collapsed-Gibbs style topic assignment for a bag-of-words topic model.
pub mod corpus;
pub mod counts;
pub mod random;
pub mod sampler;
pub mod text;
pub mod vocab;

