//! The text of the terminal report: the results table, the score, the list of primes
//! and the description of the machine.

pub mod text;
pub mod machine;
pub mod paint;
pub mod ui;
