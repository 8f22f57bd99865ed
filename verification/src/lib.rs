//! In-memory sorting of signed 32-bit integers by seven classic
//! comparison-based algorithms, each proved to return the ascending
//! rearrangement of its input.

pub mod order;
pub mod quadratic;
pub mod shell;
pub mod merge;
pub mod quick;
pub mod tail;
pub mod sample;
