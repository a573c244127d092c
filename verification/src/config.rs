//! The parameters of the search.
use crate::primes::{lists_primes_up_to, primes_up_to};
use vstd::prelude::*;

verus! {

/// Configuration for the Goldbach partition solver. `Config::default()` gives
/// the standard settings.
#[derive(Debug, Clone)]
pub struct Config {
    /// Primes up to this bound decide primality in the segmented sieve; it
    /// should be at least the square root of the largest `base + b` searched.
    pub sieve_judge_bound: u64,
    /// Primes up to this bound eliminate the `p` whose partner `N - p` has a
    /// small factor.
    pub sieve_screen_bound: u64,
    /// Where the segmented search starts (after the primes checked one by one).
    pub base_start: u64,
    /// Initial segment length.
    pub segment_init: usize,
    /// Segment length growth factor per segment.
    pub segment_growth: usize,
    /// Number of survivors tested one by one before the parallel race.
    pub serial_head: usize,
    /// Miller-Rabin rounds of the probable-prime test.
    pub mr_rounds: u32,
    /// How the remainders `N mod r` are computed.
    pub modulo_strategy: ModuloStrategy,
}

/// Strategy for computing `N mod r` for each small prime `r`.
#[derive(Debug, Clone)]
pub enum ModuloStrategy {
    /// Direct big-number division for each `r` (works for any `N`).
    Bignum,
    /// `N` is the product of `factors`: `N mod r` is 0 where `r` is one of
    /// them, and otherwise the product of the factors reduced modulo `r`.
    Incremental { factors: Vec<u64> },
}

impl Config {
    /// The settings of `Config::default()`, apart from the screening bound
    /// and the remainder strategy.
    pub open spec fn has_default_search(&self) -> bool {
        &&& self.sieve_judge_bound == 100_000
        &&& self.base_start == 79
        &&& self.segment_init == 4096
        &&& self.segment_growth == 2
        &&& self.serial_head == 2
        &&& self.mr_rounds == 25
    }
}

impl Default for Config {
    fn default() -> (res: Self)
        ensures
            res.has_default_search(),
            res.sieve_screen_bound == 100_000,
            res.modulo_strategy is Bignum,
    {
        Config {
            sieve_judge_bound: 100_000,
            sieve_screen_bound: 100_000,
            base_start: 79,
            segment_init: 4096,
            segment_growth: 2,
            serial_head: 2,
            mr_rounds: 25,
            modulo_strategy: ModuloStrategy::Bignum,
        }
    }
}

impl Config {
    /// Config tuned for an `N` built as a product of primes up to `max_factor`:
    /// the screening bound is `max(4 * max_factor, 10_000_000)`, and the
    /// remainders come from the factors, all primes up to `max_factor`.
    pub fn for_primorial(max_factor: u64) -> (res: Self)
        requires
            max_factor <= u64::MAX / 4,
            max_factor < usize::MAX,
        ensures
            res.has_default_search(),
            res.sieve_screen_bound == (if max_factor * 4 >= 10_000_000 {
                max_factor * 4
            } else {
                10_000_000
            }),
            match res.modulo_strategy {
                ModuloStrategy::Incremental { factors } => lists_primes_up_to(
                    factors@,
                    max_factor as nat,
                ),
                ModuloStrategy::Bignum => false,
            },
    {
        let quadruple = max_factor * 4;
        let sieve_screen_bound = if quadruple >= 10_000_000 {
            quadruple
        } else {
            10_000_000
        };
        let mut cfg = Config::default();
        cfg.sieve_screen_bound = sieve_screen_bound;
        cfg.modulo_strategy = ModuloStrategy::Incremental { factors: primes_up_to(max_factor) };
        cfg
    }
}

} // verus!
