//! The remainders `N mod r` for the small primes `r` of the second sieve.
use crate::bignum::{rem_u64, BigNat};
use crate::config::ModuloStrategy;
use std::collections::HashSet;
use vstd::arithmetic::div_mod::{lemma_mod_twice, lemma_mul_mod_noop_left, lemma_mul_mod_noop_right};
use vstd::prelude::*;

verus! {

/// The product of the entries of `s` (1 for none).
pub open spec fn product(s: Seq<u64>) -> nat
    decreases s.len(),
{
    if s.len() == 0 {
        1
    } else {
        product(s.drop_last()) * (s.last() as nat)
    }
}

/// What the incremental strategy gives for `r`: 0 where `r` is one of the
/// factors, 1 where there are no factors, and otherwise their product
/// reduced modulo `r`.
pub open spec fn incremental_remainder(factors: Seq<u64>, r: u64) -> nat {
    if factors.contains(r) {
        0
    } else if factors.len() == 0 {
        1
    } else {
        product(factors) % (r as nat)
    }
}

/// The remainder that `strategy` gives for `n` and `r`.
pub open spec fn strategy_remainder(n: nat, r: u64, strategy: ModuloStrategy) -> nat {
    match strategy {
        ModuloStrategy::Bignum => n % (r as nat),
        ModuloStrategy::Incremental { factors } => incremental_remainder(factors@, r),
    }
}

/// The strategy can compute a remainder for `r` without dividing by zero.
pub open spec fn strategy_handles(r: u64, strategy: ModuloStrategy) -> bool {
    r > 0 || match strategy {
        ModuloStrategy::Bignum => false,
        ModuloStrategy::Incremental { factors } => factors@.contains(0u64) || factors.len() == 0,
    }
}

/// A factor divides the product.
pub proof fn lemma_factor_divides_product(s: Seq<u64>, j: int)
    requires
        0 <= j < s.len(),
        s[j] > 0,
    ensures
        product(s) % (s[j] as nat) == 0,
    decreases s.len(),
{
    let r = s[j] as int;
    let last = s.last() as int;
    let rest = product(s.drop_last()) as int;
    if j == s.len() - 1 {
        vstd::arithmetic::div_mod::lemma_mod_multiples_basic(rest, r);
    } else {
        lemma_factor_divides_product(s.drop_last(), j);
        lemma_mul_mod_noop_left(rest, last, r);
        assert((0 * last) % r == 0) by {
            vstd::arithmetic::div_mod::lemma_small_mod(0, r as nat);
        }
    }
}

/// The incremental strategy agrees with plain division when `N` is the
/// product of the factors, except for `r == 1` with no factors.
pub proof fn lemma_incremental_is_remainder(factors: Seq<u64>, r: u64)
    requires
        r > 0,
        !(r == 1 && factors.len() == 0),
    ensures
        incremental_remainder(factors, r) == product(factors) % (r as nat),
{
    if factors.contains(r) {
        let j = choose|j: int| 0 <= j < factors.len() && factors[j] == r;
        lemma_factor_divides_product(factors, j);
    } else if factors.len() == 0 {
        vstd::arithmetic::div_mod::lemma_small_mod(1, r as nat);
    }
}

/// Law: for `N` built as the product of `factors`, the incremental strategy
/// gives the same remainders as big-number division, for every modulus
/// `r > 0` (except `r == 1` with no factors).
pub proof fn lemma_strategies_agree(n: nat, factors: Vec<u64>, r: u64)
    requires
        n == product(factors@),
        r > 0,
        !(r == 1 && factors.len() == 0),
    ensures
        strategy_remainder(n, r, ModuloStrategy::Incremental { factors })
            == strategy_remainder(n, r, ModuloStrategy::Bignum),
{
    lemma_incremental_is_remainder(factors@, r);
}

/// `N mod r` for each `r` of `small_primes`, by the configured strategy.
pub fn compute_remainders(n: &BigNat, small_primes: &[u64], strategy: &ModuloStrategy) -> (res: Vec<
    u64,
>)
    requires
        forall|j: int|
            0 <= j < small_primes.len() ==> strategy_handles(#[trigger] small_primes@[j], *strategy),
    ensures
        res.len() == small_primes.len(),
        forall|j: int|
            0 <= j < small_primes.len() ==> res[j] == strategy_remainder(
                n@,
                #[trigger] small_primes@[j],
                *strategy,
            ),
{
    match strategy {
        ModuloStrategy::Bignum => compute_bignum(n, small_primes),
        ModuloStrategy::Incremental { factors } => compute_incremental(n, small_primes, factors),
    }
}

/// `N mod r` for each `r`, by division of the big number (in `u64` where `N` fits).
pub fn compute_bignum(n: &BigNat, small_primes: &[u64]) -> (res: Vec<u64>)
    requires
        forall|j: int| 0 <= j < small_primes.len() ==> #[trigger] small_primes@[j] > 0,
    ensures
        res.len() == small_primes.len(),
        forall|j: int|
            0 <= j < small_primes.len() ==> res[j] == n@ % (#[trigger] small_primes@[j] as nat),
{
    let small = n.to_u64();
    let mut res: Vec<u64> = Vec::new();
    let mut k: usize = 0;
    while k < small_primes.len()
        invariant
            k <= small_primes.len(),
            res.len() == k,
            small == (if n@ <= u64::MAX {
                Some(n@ as u64)
            } else {
                None::<u64>
            }),
            forall|j: int| 0 <= j < small_primes.len() ==> #[trigger] small_primes@[j] > 0,
            forall|j: int| 0 <= j < k ==> res[j] == n@ % (#[trigger] small_primes@[j] as nat),
        decreases small_primes.len() - k,
    {
        let sp = small_primes[k];
        let r = match small {
            Some(nval) => nval % sp,
            None => rem_u64(n, sp),
        };
        res.push(r);
        k = k + 1;
    }
    res
}

/// `N mod r` for each `r`, from the factors of `N`: 0 where `r` is a factor,
/// else the product of the factors reduced modulo `r` step by step in `u64`.
/// `_n` is not read.
pub fn compute_incremental(_n: &BigNat, small_primes: &[u64], factors: &[u64]) -> (res: Vec<u64>)
    requires
        forall|j: int|
            0 <= j < small_primes.len() ==> #[trigger] small_primes@[j] > 0 || factors@.contains(0u64)
                || factors.len() == 0,
    ensures
        res.len() == small_primes.len(),
        forall|j: int|
            0 <= j < small_primes.len() ==> res[j] == incremental_remainder(
                factors@,
                #[trigger] small_primes@[j],
            ),
{
    broadcast use vstd::std_specs::hash::group_hash_axioms;

    let mut factor_set: HashSet<u64> = HashSet::new();
    let mut i: usize = 0;
    while i < factors.len()
        invariant
            i <= factors.len(),
            factor_set@ == factors@.subrange(0, i as int).to_set(),
        decreases factors.len() - i,
    {
        factor_set.insert(factors[i]);
        proof {
            assert(factors@.subrange(0, i + 1) =~= factors@.subrange(0, i as int).push(factors@[i as int]));
            let prev = factors@.subrange(0, i as int);
            let grown = factors@.subrange(0, i + 1);
            assert forall|x: u64| factor_set@.contains(x) == grown.to_set().contains(x) by {
                if prev.contains(x) {
                    let w = choose|w: int| 0 <= w < prev.len() && prev[w] == x;
                    assert(grown[w] == x);
                }
                if grown.contains(x) {
                    let w = choose|w: int| 0 <= w < grown.len() && grown[w] == x;
                    if w < i {
                        assert(prev[w] == x);
                    }
                }
                if x == factors@[i as int] {
                    assert(grown[i as int] == x);
                }
            }
            assert(factor_set@ =~= grown.to_set());
        }
        i = i + 1;
    }
    assert(factors@.subrange(0, factors.len() as int) =~= factors@);
    let mut res: Vec<u64> = Vec::new();
    let mut k: usize = 0;
    while k < small_primes.len()
        invariant
            k <= small_primes.len(),
            res.len() == k,
            factor_set@ == factors@.to_set(),
            forall|j: int|
                0 <= j < small_primes.len() ==> #[trigger] small_primes@[j] > 0 || factors@.contains(
                    0u64,
                ) || factors.len() == 0,
            forall|j: int|
                0 <= j < k ==> res[j] == incremental_remainder(factors@, #[trigger] small_primes@[j]),
        decreases small_primes.len() - k,
    {
        let r = small_primes[k];
        let value = if factor_set.contains(&r) {
            0
        } else {
            let mut acc: u64 = 1;
            let mut t: usize = 0;
            while t < factors.len()
                invariant
                    t <= factors.len(),
                    r > 0 || factors.len() == 0,
                    acc == (if t == 0 {
                        1
                    } else {
                        product(factors@.subrange(0, t as int)) % (r as nat)
                    }),
                decreases factors.len() - t,
            {
                let f = factors[t];
                assert((acc as u128 * f as u128) < u128::MAX) by (nonlinear_arith)
                    requires acc <= u64::MAX, f <= u64::MAX;
                let next = (acc as u128 * f as u128 % r as u128) as u64;
                proof {
                    let prefix = factors@.subrange(0, t as int);
                    let grown = factors@.subrange(0, t + 1);
                    assert(grown.drop_last() =~= prefix);
                    assert(product(grown) == product(prefix) * (f as nat));
                    if t == 0 {
                        assert(product(prefix) == 1);
                    } else {
                        lemma_mul_mod_noop_left(product(prefix) as int, f as int, r as int);
                    }
                }
                acc = next;
                t = t + 1;
            }
            assert(factors@.subrange(0, factors.len() as int) =~= factors@);
            acc
        };
        proof {
            assert(factors@.contains(r) == factors@.to_set().contains(r));
        }
        res.push(value);
        k = k + 1;
    }
    res
}

} // verus!
