//! Performance model for timing simulations of an inference engine.
//!
//! [`model`] predicts how long the prefill and the decode step of a batch take,
//! from hardcoded polynomials, from profiler data, or by asking a timing service.
//! [`profile`] checks profiler data and assembles a model of it, [`surface`] and
//! [`axis`] interpolate between measured times. Times and coordinates are double
//! precision numbers, whose arithmetic [`double`] and [`rounding`] define.
//! Theorems about all of it are in [`laws`] and, in terms of exact numbers, in
//! [`arithmetic`], [`accuracy`], [`polynomial`], [`utilization`] and [`prediction`].

pub mod accuracy;
pub mod arithmetic;
pub mod axis;
pub mod double;
pub mod interpolator;
pub mod laws;
pub mod model;
pub mod npz;
pub mod polynomial;
pub mod prediction;
pub mod profile;
pub mod rounding;
pub mod surface;
pub mod text;
pub mod utilization;
