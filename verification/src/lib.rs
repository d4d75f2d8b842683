//! Eratos: the prime sieve at the heart of a CPU benchmark, with its flag storages,
//! the table of known prime counts and the text of the terminal report.

pub mod primes;
pub mod options;
pub mod parse;
pub mod report;
