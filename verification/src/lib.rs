//! Sumcheck-based polynomial protocols over the Vesta scalar field, with the
//! transcript that drives their interaction.
//!
//! For testing only: the transcript's sponge uses a small algebraic
//! permutation of no cryptographic strength, so its challenges are not
//! those of a sound Fiat-Shamir transcript.
pub mod field;
pub mod algebra;
pub mod polynomials;
pub mod zerocheck;
pub mod barycentric;
pub mod message;
pub mod sponge;
pub mod transcript;
pub mod sumcheck;
pub mod relations;
pub mod oracles;
pub mod sumcheck_relations;
pub mod folding;
pub mod prove;
pub mod reduction;
pub mod sumcheck_reduction;
pub mod interpolation;
pub mod completeness;
pub mod composite;
pub mod zerocheck_reduction;
pub mod zero_folding;
