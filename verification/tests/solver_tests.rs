use blazing_goldbach::bignum::BigNat;
use blazing_goldbach::primes::primes_up_to;
use blazing_goldbach::{solve, Config, GoldbachResult};
use rug::integer::{IsPrime, Order};
use rug::Integer;
use std::collections::HashSet;

fn to_integer(n: &BigNat) -> Integer {
    Integer::from_digits(&n.to_limbs(), Order::Lsf)
}

fn from_integer(n: &Integer) -> BigNat {
    BigNat::from_limbs(n.to_digits::<u64>(Order::Lsf))
}

fn is_prime(n: &Integer, mr_rounds: u32) -> bool {
    n.is_probably_prime(mr_rounds) != IsPrime::No
}

/// The survivor count from which a segment is worth testing: the smallest
/// count whose expected number of pairs, count / ln(N), reaches 0.01.
fn min_survivors(n: &Integer) -> Option<usize> {
    let n_approx = n.to_u64().map(|v| v as f64).unwrap_or_else(|| {
        let bits = n.significant_digits::<u32>() as f64;
        2f64.powf(bits)
    });
    if n_approx <= 2.0 {
        return None;
    }
    let ln_n = n_approx.ln();
    if !(ln_n > 0.0) || !ln_n.is_finite() {
        return None;
    }
    let productive = |c: usize| c as f64 / ln_n >= 0.01;
    let mut c = ((0.01 * ln_n).ceil() as usize).max(1);
    while !productive(c) {
        c += 1;
    }
    while c > 1 && productive(c - 1) {
        c -= 1;
    }
    Some(c)
}

fn run(n: &Integer, cfg: &Config) -> Option<GoldbachResult> {
    solve(&from_integer(n), cfg, min_survivors(n))
}

#[test]
fn test_small_goldbach() {
    let test_cases: Vec<u32> = vec![6, 8, 10, 100, 1000, 10000];
    let cfg = Config::default();
    for n_val in test_cases {
        let n = Integer::from(n_val);
        let result = run(&n, &cfg).unwrap_or_else(|| panic!("Failed for N={}", n_val));
        assert_eq!(
            Integer::from(result.p) + to_integer(&result.q),
            n,
            "p+q != N for N={}",
            n_val
        );
        assert!(is_prime(&Integer::from(result.p), cfg.mr_rounds), "p={} is not prime", result.p);
        assert!(
            is_prime(&to_integer(&result.q), cfg.mr_rounds),
            "q={} is not prime",
            to_integer(&result.q)
        );
    }
}

/// Differential test: brute-force minimum p for small N, compare with solve.
fn brute_force_min_p(n: u64) -> u64 {
    let primes = primes_up_to(n);
    let prime_set: HashSet<u64> = primes.iter().copied().collect();
    for &p in &primes {
        if p > n / 2 {
            break;
        }
        let q = n - p;
        if prime_set.contains(&q) {
            return p;
        }
    }
    panic!("No partition found for N={}", n);
}

#[test]
fn test_differential_small() {
    let cfg = Config::default();
    for n_val in (6..=10_000u64).step_by(2) {
        let n = Integer::from(n_val);
        let result = run(&n, &cfg).unwrap_or_else(|| panic!("Failed for N={}", n_val));
        let expected_p = brute_force_min_p(n_val);
        assert_eq!(
            result.p, expected_p,
            "solve found p={} but brute-force found p_min={} for N={}",
            result.p, expected_p, n_val
        );
    }
}

#[test]
fn test_verification_invariant() {
    // Every result must satisfy: p prime, q prime, p+q=N
    let cfg = Config::default();
    for n_val in [6u64, 100, 1000, 1000000, 9999999998] {
        let n = Integer::from(n_val);
        if let Some(result) = run(&n, &cfg) {
            assert!(is_prime(&Integer::from(result.p), cfg.mr_rounds), "p not prime for N={}", n_val);
            assert!(is_prime(&to_integer(&result.q), cfg.mr_rounds), "q not prime for N={}", n_val);
            assert_eq!(
                Integer::from(result.p) + to_integer(&result.q),
                n,
                "p+q != N for N={}",
                n_val
            );
        }
    }
}

#[test]
fn test_lower_bound_preserves_correctness() {
    // Differential test with segment_is_productive integrated:
    // ensure solve still finds correct answers after pruning is added.
    let cfg = Config::default();
    for n_val in (6..=1000u64).step_by(2) {
        let n = Integer::from(n_val);
        let result = run(&n, &cfg).unwrap_or_else(|| panic!("Failed for N={}", n_val));
        let expected_p = brute_force_min_p(n_val);
        assert_eq!(
            result.p, expected_p,
            "solve found p={} but brute-force found p_min={} for N={}",
            result.p, expected_p, n_val
        );
    }
}

#[test]
fn smallest_n_is_three_plus_three() {
    let result = run(&Integer::from(6), &Config::default()).unwrap();
    assert_eq!(result.p, 3);
    assert_eq!(result.q.to_u64(), Some(3));
    // p = 2 is tried first, then p = 3.
    assert_eq!(result.attempts, 2);
    assert_eq!(result.candidates_in_segment, 0);
    assert_eq!(result.survivors_in_segment, 0);
}

#[test]
fn partner_of_two_found_first() {
    // 2 + 2 = 4 is out of range; 2 + 19 = 21 is not prime, but N = 2 + 1999 = 2001 is odd.
    // N = 2 + p only for odd N; for N = 6 the prime 2 fails and 3 wins.
    let result = run(&Integer::from(14), &Config::default()).unwrap();
    assert_eq!((result.p, result.q.to_u64()), (3, Some(11)));
}

#[test]
fn sieve_phase_finds_p_beyond_the_early_primes() {
    // 2642 = 103 + 2539 is the first even number whose smallest
    // Goldbach prime exceeds 73.
    let result = run(&Integer::from(2642), &Config::default()).unwrap();
    assert_eq!(result.p, 103);
    assert_eq!(result.q.to_u64(), Some(2539));
    assert_eq!(result.candidates_in_segment, 4096);
    assert!(result.survivors_in_segment >= 1);
    assert_eq!(result.attempts, 21 + 1);
}

#[test]
fn unproductive_segments_are_skipped() {
    // With no segment productive, only the early primes are tried, and the
    // segments end at the square of the judging bound.
    let mut cfg = Config::default();
    cfg.sieve_judge_bound = 100;
    let n = from_integer(&Integer::from(2642));
    assert!(solve(&n, &cfg, None).is_none());
    assert_eq!(solve(&n, &cfg, Some(1)).unwrap().p, 103);
}

#[test]
fn large_even_number_has_a_partition() {
    // 2^100 + 2
    let n = (Integer::from(1) << 100u32) + 2u32;
    let result = run(&n, &Config::default()).unwrap();
    let q = to_integer(&result.q);
    assert_eq!(Integer::from(result.p) + &q, n);
    assert!(is_prime(&q, 25));
    assert!(is_prime(&Integer::from(result.p), 25));
}

#[test]
fn primorial_config_finds_a_partition() {
    let (n, factors) = blazing_goldbach::construct::primorial(20);
    let cfg = Config::for_primorial(*factors.iter().max().unwrap());
    let big = to_integer(&n);
    let result = solve(&n, &cfg, min_survivors(&big)).unwrap();
    assert_eq!(Integer::from(result.p) + to_integer(&result.q), big);
    assert!(is_prime(&to_integer(&result.q), 25));
}

#[test]
fn parallel_race_finds_the_first_passing_survivor() {
    // With no serial head, the survivors of the segment go straight to the race.
    let mut cfg = Config::default();
    cfg.serial_head = 0;
    let result = run(&Integer::from(2642), &cfg).unwrap();
    assert_eq!(result.p, 103);
    assert_eq!(result.q.to_u64(), Some(2539));
    assert_eq!(result.attempts, 21 + 1);
    // 5372 = 139 + 5233: the first passing survivor is not the first survivor.
    let result = run(&Integer::from(5372), &cfg).unwrap();
    assert_eq!(result.p, brute_force_min_p(5372));
    assert_eq!(Integer::from(result.p) + to_integer(&result.q), Integer::from(5372));
}

#[test]
fn every_segment_tested_gives_the_least_partition() {
    // Up to one million GMP's test is exact; with every segment that has a
    // survivor tested, the search returns the least Goldbach prime.
    let cfg = Config::default();
    for n_val in (6..=3000u64).step_by(2) {
        let n = from_integer(&Integer::from(n_val));
        let result = solve(&n, &cfg, Some(1)).unwrap();
        assert_eq!(result.p, brute_force_min_p(n_val), "N={}", n_val);
    }
    // Near the top of the exact range, where the least Goldbach prime is large.
    for n_val in [503222u64, 999998, 1000000] {
        let n = from_integer(&Integer::from(n_val));
        let result = solve(&n, &cfg, Some(1)).unwrap();
        assert_eq!(result.p, brute_force_min_p(n_val), "N={}", n_val);
        assert_eq!(result.q.to_u64(), Some(n_val - result.p));
    }
}

#[test]
fn search_may_start_at_one() {
    // A segment starting at 1 does not take 1 for a prime.
    let mut cfg = Config::default();
    cfg.base_start = 1;
    let n = from_integer(&Integer::from(2642));
    let result = solve(&n, &cfg, Some(1)).unwrap();
    assert_eq!(result.p, 103);
    assert_eq!(result.q.to_u64(), Some(2539));
    cfg.base_start = 0;
    cfg.segment_init = 1;
    let result = solve(&n, &cfg, Some(1)).unwrap();
    assert_eq!(result.p, 103);
}
