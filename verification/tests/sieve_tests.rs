use blazing_goldbach::primes::primes_up_to;
use blazing_goldbach::sieve::{double_sieve, segmented_sieve};

fn is_prime_naive(n: u64) -> bool {
    n >= 2 && (2..n).take_while(|d| d * d <= n).all(|d| n % d != 0)
}

#[test]
fn primes_up_to_thirty() {
    assert_eq!(primes_up_to(30), vec![2, 3, 5, 7, 11, 13, 17, 19, 23, 29]);
    assert_eq!(primes_up_to(1), Vec::<u64>::new());
    assert_eq!(primes_up_to(2), vec![2]);
}

#[test]
fn primes_up_to_counts() {
    assert_eq!(primes_up_to(100_000).len(), 9592);
}

#[test]
fn segmented_sieve_matches_trial_division() {
    let small = primes_up_to(1000);
    for &(base, b) in &[(0u64, 50usize), (79, 4096), (1_000_000, 1000), (2, 1)] {
        let buf = segmented_sieve(base, b, &small);
        assert_eq!(buf.len(), b);
        for i in 0..b {
            let expected = if is_prime_naive(base + i as u64) { 1 } else { 0 };
            assert_eq!(buf[i], expected, "base={} i={}", base, i);
        }
    }
}

#[test]
fn segmented_sieve_at_base_one_clears_one() {
    let buf = segmented_sieve(1, 10, &primes_up_to(10));
    assert_eq!(buf, vec![0, 1, 1, 0, 1, 0, 1, 0, 0, 0]);
    assert_eq!(segmented_sieve(1, 4, &[2]), vec![0, 1, 1, 0]);
    assert_eq!(segmented_sieve(1, 1, &[]), vec![0]);
    assert_eq!(segmented_sieve(0, 1, &[]), vec![0]);
}

#[test]
fn smaller_prime_tables_are_prefixes() {
    let big = primes_up_to(1000);
    for a in [0u64, 1, 2, 3, 10, 97, 100, 541, 999, 1000] {
        let small = primes_up_to(a);
        assert_eq!(&big[..small.len()], &small[..], "a={}", a);
        assert!(big[small.len()..].iter().all(|&p| p > a), "a={}", a);
    }
}

#[test]
fn double_sieve_marks_partners_with_small_factors() {
    // N = 100: p is marked when 100 - p is a proper multiple of 3, 5 or 7.
    let small = vec![3u64, 5, 7];
    let rem: Vec<u64> = small.iter().map(|r| 100 % r).collect();
    let buf = double_sieve(80, 20, &small, &rem, Some(100));
    for i in 0..20u64 {
        let p = 80 + i;
        let q = 100 - p;
        let expected = small.iter().any(|&r| q % r == 0 && q != r);
        assert_eq!(buf[i as usize] == 1, expected, "p={}", p);
    }
}

#[test]
fn double_sieve_without_n_marks_every_residue() {
    let buf = double_sieve(0, 10, &[3], &[1], None);
    assert_eq!(buf, vec![0, 1, 0, 0, 1, 0, 0, 1, 0, 0]);
}
