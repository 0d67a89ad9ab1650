//! Cycle detection over sensor logs.
//!
//! A log is a sequence of lines of `name;value` pairs. The library finds the
//! cycles of a displacement signal in it (each closes where the signal turns
//! from non-negative to negative) and keeps, for each cycle that is long
//! enough, the smallest and the largest reading of a tracked field together
//! with the number of samples the cycle took.
//!
//! Readings are IEEE 754 binary32 numbers. They are held by their bit
//! patterns, as `u32`; see [`number`].

pub mod number;
pub mod extremum;
pub mod record;
pub mod config;
pub mod aggregate;
pub mod output;
pub mod state;
