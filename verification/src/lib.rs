//! A single-asset order book that matches the best bid against the best ask.
//!
//! [`market`] holds the orders, the trades and the book with its operations,
//! and [`matching`] the rules by which the first orders of the book are
//! matched. [`ranking`] says what it means to arrange a sequence stably by
//! rank, and [`sorting`] computes that arrangement.

pub mod market;
pub mod matching;
pub mod ranking;
pub mod sorting;
