//! Host side of a halo2 proving stack: field elements with deferred inversion,
//! constraint systems, expression graphs and their device encoding, lookup and
//! permutation arguments, evaluation domains and multi-point openings.

pub mod field;
pub mod plonk;
pub mod poly;
pub mod text;
