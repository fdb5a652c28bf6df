//! Password generation from a configurable character set, driven by a
//! seeded counter-mode mixing generator with unbiased index sampling.

pub mod cli;
pub mod generator;
pub mod random;
