use blazing_goldbach::bignum::BigNat;
use blazing_goldbach::construct::{
    even_number_from_draws, primorial, product_even, random_even, random_even_from_seed, seeded_draws,
};
use rug::integer::Order;
use rug::Integer;

fn to_integer(n: &BigNat) -> Integer {
    Integer::from_digits(&n.to_limbs(), Order::Lsf)
}

#[test]
fn test_primorial_small() {
    let (n, factors) = primorial(4);
    assert_eq!(to_integer(&n), Integer::from(2 * 3 * 5 * 7));
    assert_eq!(factors, vec![2, 3, 5, 7]);
}

#[test]
fn test_primorial_is_even() {
    for k in 1..=10 {
        let (n, _) = primorial(k);
        assert!(n.is_even(), "primorial({}) must be even", k);
    }
}

#[test]
fn test_product_even() {
    let (n, factors) = product_even(3, 11);
    // primes in [3, 11] are 3, 5, 7, 11
    assert_eq!(to_integer(&n), Integer::from(2u64 * 3 * 5 * 7 * 11));
    assert_eq!(factors[0], 2);
}

#[test]
fn test_random_even() {
    let mut call_count = 0u64;
    let mut rng = || {
        call_count += 1;
        call_count
    };
    let (n, factors) = random_even(50, &mut rng);
    assert!(n.is_even());
    assert!(to_integer(&n).to_string().len() == 50);
    assert!(factors.is_empty());
}

#[test]
fn primorial_of_many_primes_needs_a_larger_sieve() {
    // The 30th prime is 113, beyond the first sieve limit of 30.
    let (n, factors) = primorial(30);
    assert_eq!(factors.len(), 30);
    assert_eq!(factors[29], 113);
    let mut expected = Integer::from(1);
    for &f in &factors {
        expected *= f;
    }
    assert_eq!(to_integer(&n), expected);
}

#[test]
fn primorial_of_one_prime_is_two() {
    let (n, factors) = primorial(1);
    assert_eq!(n.to_u64(), Some(2));
    assert_eq!(factors, vec![2]);
}

#[test]
fn product_even_starting_at_two_repeats_the_factor_two() {
    let (n, factors) = product_even(2, 7);
    assert_eq!(factors, vec![2, 2, 3, 5, 7]);
    assert_eq!(n.to_u64(), Some(2 * 2 * 3 * 5 * 7));
}

#[test]
fn product_even_of_a_range_without_primes() {
    let (n, factors) = product_even(24, 28);
    assert_eq!(factors, vec![2]);
    assert_eq!(n.to_u64(), Some(2));
}

#[test]
fn even_number_from_fixed_draws() {
    // first digit 7 % 9 + 1 = 8, then 13 % 10 = 3, 4 % 10 = 4 (replaced),
    // last digit from 3 % 5 = 3: '6'.
    let n = even_number_from_draws(3, &vec![7, 13, 4, 3]);
    assert_eq!(n.to_u64(), Some(836));
}

#[test]
fn even_number_of_one_digit_is_the_even_digit() {
    let n = even_number_from_draws(1, &vec![5, 4]);
    assert_eq!(n.to_u64(), Some(8));
    let zero = even_number_from_draws(0, &vec![5, 0]);
    assert_eq!(zero.to_u64(), Some(0));
}

#[test]
fn product_even_is_even() {
    for (lo, hi) in [(3u64, 3u64), (5, 50), (100, 200)] {
        let (n, _) = product_even(lo, hi);
        assert!(n.is_even());
    }
}

#[test]
fn seeded_draws_follow_the_generator() {
    assert_eq!(seeded_draws(0, 4), vec![0, 740882966, 1616430695, 1708849955]);
    assert_eq!(seeded_draws(42, 3), vec![1052313527, 1006665568, 1203072297]);
    assert_eq!(seeded_draws(42, 0), Vec::<u64>::new());
}

#[test]
fn random_even_from_seed_is_reproducible() {
    assert_eq!(random_even_from_seed(5, 42).to_u64(), Some(38746));
    assert_eq!(random_even_from_seed(0, 7).to_u64(), Some(0));
    let a = random_even_from_seed(40, 123);
    let b = random_even_from_seed(40, 123);
    assert_eq!(a.to_limbs(), b.to_limbs());
    assert!(a.is_even());
}
