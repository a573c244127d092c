//! Goldbach partitions of even numbers: sieves, remainders and the search.
pub mod arith;
pub mod bignum;
pub mod config;
pub mod minimality;
pub mod construct;
pub mod input;
pub mod modulo;
pub mod primes;
pub mod sieve;
pub mod solver;

pub use config::{Config, ModuloStrategy};
pub use solver::{solve, GoldbachResult};
