//! Dropout and regularization for ternary neural networks, whose values live
//! in {-1, 0, +1}. Every random decision is drawn from a seeded xorshift64
//! generator, so a seed fixes every mask.
pub mod trit;
pub mod rng;
pub mod matrix;
pub mod dropout;
pub mod sparse;
pub mod monte_carlo;

pub use trit::Trit;
pub use rng::TernaryRng;
pub use matrix::TernaryMatrix;
pub use dropout::{DropRate, random_dropout, dropconnect, structured_dropout, noise_injection};
pub use sparse::sparse_dropout;
pub use monte_carlo::{MCOutput, monte_carlo_dropout};
