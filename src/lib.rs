//! Sampling and extrapolation of per-block event log statistics.
//!
//! `record` holds the fixed-width binary record format, `estimate` the
//! windowed extrapolation over sparse samples, and `sampler` the decisions of
//! the random block-sampling loop.
pub mod record;
pub mod estimate;
pub mod sampler;
