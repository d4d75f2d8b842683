//! The Sieve of Eratosthenes over odd numbers, the flag storages it can run on,
//! and the known prime counts that check it.

pub mod primality;
pub mod sieve;
pub mod storage;
pub mod tally;
pub mod validator;

pub use storage::{
    FlagStorage, FlagStorageBitVector, FlagStorageBitVectorRotate, FlagStorageBitVectorStriped,
    FlagStorageByteVector,
};
pub use sieve::PrimeSieve;
pub use validator::PrimeValidator;
