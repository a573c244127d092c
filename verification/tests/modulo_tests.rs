use blazing_goldbach::bignum::BigNat;
use blazing_goldbach::modulo::{compute_bignum, compute_incremental, compute_remainders};
use blazing_goldbach::primes::primes_up_to;
use blazing_goldbach::ModuloStrategy;
use rug::integer::Order;
use rug::Integer;

fn from_integer(n: &Integer) -> BigNat {
    BigNat::from_limbs(n.to_digits::<u64>(Order::Lsf))
}

#[test]
fn test_incremental_matches_bignum() {
    // N = 2 * 3 * 5 * 7 * 11 * 13 = 30030
    let factors = vec![2, 3, 5, 7, 11, 13];
    let n = from_integer(&Integer::from(factors.iter().product::<u64>()));
    let small_primes = primes_up_to(1000);

    let rem_bignum = compute_bignum(&n, &small_primes);
    let rem_incr = compute_incremental(&n, &small_primes, &factors);

    assert_eq!(rem_bignum, rem_incr, "incremental must match bignum");
}

#[test]
fn test_incremental_primorial_large() {
    // Test with a primorial that overflows u64: first 20 primes
    let factors = primes_up_to(71); // 20th prime
    let mut n = Integer::from(1u64);
    for &f in &factors {
        n = Integer::from(&n * f);
    }
    let n = from_integer(&n);
    let small_primes = primes_up_to(500);

    let rem_bignum = compute_bignum(&n, &small_primes);
    let rem_incr = compute_incremental(&n, &small_primes, &factors);

    assert_eq!(rem_bignum, rem_incr, "incremental must match bignum for large primorial");
}

#[test]
fn bignum_remainders_of_a_number_beyond_u64() {
    // 2^64 + 5
    let n = BigNat::from_limbs(vec![5, 1]);
    let rem = compute_bignum(&n, &[3, 7, 1_000_003]);
    let big = Integer::from(1u64) << 64u32;
    let big = big + 5u32;
    let expected: Vec<u64> = [3u64, 7, 1_000_003]
        .iter()
        .map(|&r| Integer::from(&big % r).to_u64().unwrap())
        .collect();
    assert_eq!(rem, expected);
}

#[test]
fn incremental_remainder_is_zero_for_a_factor_and_one_without_factors() {
    let n = BigNat::from_u64(0);
    assert_eq!(compute_incremental(&n, &[3, 5, 7], &[3, 7]), vec![0, 21 % 5, 0]);
    assert_eq!(compute_incremental(&n, &[1, 3], &[]), vec![1, 1]);
}

#[test]
fn remainders_follow_the_strategy() {
    let n = BigNat::from_u64(30030);
    let primes = primes_up_to(20);
    let by_division = compute_remainders(&n, &primes, &ModuloStrategy::Bignum);
    let by_factors = compute_remainders(
        &n,
        &primes,
        &ModuloStrategy::Incremental { factors: vec![2, 3, 5, 7, 11, 13] },
    );
    assert_eq!(by_division, vec![0, 0, 0, 0, 0, 0, 30030 % 17, 30030 % 19]);
    assert_eq!(by_division, by_factors);
}
