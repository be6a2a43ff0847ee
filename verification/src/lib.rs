//! String-based decimal rounding and boundary-value generation.
//!
//! The crate has two independent parts: a rounder that rounds the textual
//! representation of a decimal number to a requested count of fractional
//! digits purely by digit manipulation, and a generator that enumerates the
//! decimal strings that sit just below and exactly at the half-way point of
//! every rounding position up to a configured depth.

pub mod decimal;
pub mod generator;
pub mod rounder;
