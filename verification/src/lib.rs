//! Decimal digits of a non-negative integer, and how often each digit occurs.
//!
//! [`model`] holds the mathematical definitions, [`laws`] the properties
//! proved of them, and [`digits`] the executable code, whose contracts are
//! stated over the model.

pub mod digits;
pub mod laws;
pub mod model;
