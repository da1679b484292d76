//! The logic of the user programs and of the library that they use.

pub mod primes;
pub mod sh;
pub mod stdio;
pub mod test_runner;
