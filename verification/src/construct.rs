//! Even numbers to solve: primorials, products of primes in a range, and
//! random even numbers.
use crate::bignum::{
    all_ascii_digits, decimal_value, lemma_decimal_digit_count, mul_u64, parse_decimal, pow10, BigNat,
};
use crate::modulo::{lemma_factor_divides_product, product};
use crate::primes::{is_prime, lemma_primes_upto_seq, lists_primes_up_to, primes_up_to, primes_upto_seq};
use vstd::prelude::*;

verus! {

/// The sieve limit beyond which `primorial` stops enlarging its search.
pub open spec fn primorial_search_cap() -> nat {
    if usize::MAX / 4 < 1099511627776 {
        (usize::MAX / 4) as nat
    } else {
        1099511627776
    }
}

/// The first `j` entries of the list of primes up to `limit` are the primes up
/// to the last of them; all of them when `j` is the whole length.
proof fn lemma_prime_prefix(limit: nat, j: int)
    requires
        limit <= u64::MAX,
        1 <= j <= primes_upto_seq(limit).len(),
    ensures
        lists_primes_up_to(
            primes_upto_seq(limit).take(j),
            primes_upto_seq(limit).take(j).last() as nat,
        ),
{
    lemma_primes_upto_seq(limit);
    let all = primes_upto_seq(limit);
    let pre = all.take(j);
    assert forall|p: nat| is_prime(p) && p <= pre.last() implies pre.contains(p as u64) by {
        let w = choose|w: int| 0 <= w < all.len() && all[w] == p as u64;
        if w >= j {
            assert(all[j - 1] < all[w]);
        }
        assert(pre[w] == p as u64);
    }
}

/// Computes the primorial: the product of the first `k` primes, with them.
/// Returns `(N, factors)`; `N` is even (the first factor is 2). The search
/// for primes stops at `2^40` (at a quarter of the address space on smaller
/// machines): should there be fewer than `k` primes up to there, all of
/// those are taken.
pub fn primorial(k: usize) -> (res: (BigNat, Vec<u64>))
    requires
        k >= 1,
    ensures
        res.1.len() >= 1,
        res.1.len() <= k,
        lists_primes_up_to(res.1@, res.1@.last() as nat),
        res.1.len() == k || primes_upto_seq(
            if usize::MAX / 4 < 1099511627776 {
                (usize::MAX / 4) as nat
            } else {
                1099511627776nat
            },
        ).len() < k,
        res.1.len() < k ==> forall|p: nat|
            is_prime(p) && p <= (if usize::MAX / 4 < 1099511627776 {
                (usize::MAX / 4) as nat
            } else {
                1099511627776nat
            }) ==> res.1@.contains(p as u64),
        res.0@ == product(res.1@),
        res.0@ % 2 == 0,
{
    let mut limit: u64 = 30;
    let mut all_primes = primes_up_to(limit);
    let quarter: u64 = (usize::MAX / 4) as u64;
    let cap: u64 = if quarter < 1099511627776 {
        quarter
    } else {
        1099511627776
    };
    while all_primes.len() < k && limit < cap
        invariant
            30 <= limit <= 2 * cap,
            cap == primorial_search_cap(),
            cap <= usize::MAX / 4,
            all_primes@ == primes_upto_seq(limit as nat),
        decreases 2 * cap - limit,
    {
        limit = limit * 2;
        all_primes = primes_up_to(limit);
    }
    proof {
        lemma_primes_upto_seq(limit as nat);
        let all = all_primes@;
        assert(all.contains(2u64)) by {
            assert(is_prime(2nat));
        }
    }
    let take: usize = if all_primes.len() < k {
        all_primes.len()
    } else {
        k
    };
    let mut factors: Vec<u64> = Vec::new();
    let mut n = BigNat::from_u64(1);
    let mut i: usize = 0;
    while i < take
        invariant
            i <= take <= all_primes.len(),
            factors@ == all_primes@.take(i as int),
            n@ == product(factors@),
        decreases take - i,
    {
        let f = all_primes[i];
        n = mul_u64(&n, f);
        factors.push(f);
        proof {
            assert(factors@.drop_last() =~= all_primes@.take(i as int));
            assert(factors@ =~= all_primes@.take(i + 1));
        }
        i = i + 1;
    }
    proof {
        assert(all_primes@.len() >= 1) by {
            let w = choose|w: int| 0 <= w < all_primes@.len() && all_primes@[w] == 2u64;
        }
        lemma_prime_prefix(limit as nat, take as int);
        assert(factors@.contains(2u64));
        let w = choose|w: int| 0 <= w < factors@.len() && factors@[w] == 2u64;
        lemma_factor_divides_product(factors@, w);
        if take < k {
            assert(factors@ =~= all_primes@);
            crate::primes::lemma_primes_upto_prefix(cap as nat, limit as nat);
            assert forall|p: nat| is_prime(p) && p <= primorial_search_cap() implies factors@.contains(
                p as u64,
            ) by {
                assert(p <= limit);
            }
        }
    }
    (n, factors)
}

/// Constructs `2 * (product of all primes in [lo, hi])`. Returns
/// `(N, factors)` with the factor list `[2]` followed by those primes.
pub fn product_even(lo: u64, hi: u64) -> (res: (BigNat, Vec<u64>))
    requires
        lo >= 2,
        hi >= lo,
        hi < usize::MAX,
    ensures
        res.1@ == seq![2u64] + primes_upto_seq(hi as nat).filter(|p: u64| p >= lo),
        res.0@ == product(res.1@),
        res.0@ % 2 == 0,
{
    let primes = primes_up_to(hi);
    let ghost pred = |p: u64| p >= lo;
    let mut factors: Vec<u64> = Vec::new();
    factors.push(2);
    let mut n = BigNat::from_u64(2);
    proof {
        reveal_with_fuel(product, 2);
        assert(factors@.drop_last() =~= Seq::<u64>::empty());
    }
    let mut i: usize = 0;
    while i < primes.len()
        invariant
            i <= primes.len(),
            pred == (|p: u64| p >= lo),
            factors@ == seq![2u64] + primes@.take(i as int).filter(pred),
            n@ == product(factors@),
        decreases primes.len() - i,
    {
        let p = primes[i];
        proof {
            assert(primes@.take(i + 1).drop_last() =~= primes@.take(i as int));
            assert(primes@.take(i + 1).last() == p);
            reveal(Seq::filter);
        }
        if p >= lo {
            n = mul_u64(&n, p);
            factors.push(p);
            proof {
                assert(factors@.drop_last() =~= seq![2u64] + primes@.take(i as int).filter(pred));
            }
        }
        proof {
            assert(factors@ =~= seq![2u64] + primes@.take(i + 1).filter(pred));
        }
        i = i + 1;
    }
    proof {
        assert(primes@.take(primes.len() as int) =~= primes@);
        assert(factors@[0] == 2u64);
        lemma_factor_divides_product(factors@, 0);
    }
    (n, factors)
}

/// The ASCII digit `'0'`, `'2'`, `'4'`, `'6'` or `'8'` that a draw picks.
pub open spec fn even_digit(x: u64) -> u8 {
    (48 + 2 * (x % 5)) as u8
}

/// How many draws a random even number of `digits` digits takes.
pub open spec fn draws_needed(digits: nat) -> nat {
    if digits == 0 {
        2
    } else {
        digits + 1
    }
}

/// The decimal numeral built from `draws`: a first digit from 1 to 9, then
/// digits from 0 to 9, of which the last is replaced by an even one.
pub open spec fn random_even_text(digits: nat, draws: Seq<u64>) -> Seq<u8> {
    let body = if digits >= 2 {
        seq![(49 + draws[0] % 9) as u8] + Seq::new(
            (digits - 2) as nat,
            |j: int| (48 + draws[j + 1] % 10) as u8,
        )
    } else {
        Seq::empty()
    };
    body.push(even_digit(draws[draws_needed(digits) - 1]))
}

/// The random even number that `draws` give: the decimal value of
/// `random_even_text`.
pub fn even_number_from_draws(digits: usize, draws: &Vec<u64>) -> (res: BigNat)
    requires
        digits < usize::MAX,
        draws.len() == draws_needed(digits as nat),
    ensures
        res@ == decimal_value(random_even_text(digits as nat, draws@)),
        res@ % 2 == 0,
        digits >= 2 ==> pow10((digits - 1) as nat) <= res@ < pow10(digits as nat),
        digits <= 1 ==> res@ < 10,
{
    let mut text: Vec<u8> = Vec::new();
    text.push((draws[0] % 9 + 1) as u8 + 48);
    let mut j: usize = 1;
    while j < digits
        invariant
            1 <= j,
            j <= digits || digits == 0,
            digits == 0 ==> j == 1,
            text.len() == j,
            draws.len() == draws_needed(digits as nat),
            text@[0] == (49 + draws@[0] % 9) as u8,
            forall|t: int| 1 <= t < j ==> #[trigger] text@[t] == (48 + draws@[t] % 10) as u8,
        decreases digits - j,
    {
        text.push((draws[j] % 10) as u8 + 48);
        j = j + 1;
    }
    let ghost before_pop = text@;
    text.pop();
    let last = draws[draws.len() - 1];
    text.push((last % 5 * 2) as u8 + 48);
    let ghost expected = random_even_text(digits as nat, draws@);
    proof {
        let m = (text.len() - 1) as int;
        assert(text@[m] == even_digit(draws@[draws.len() - 1]));
        assert(text.len() == (if digits == 0 { 1 } else { digits as int }));
        assert(expected.len() == text.len());
        assert(expected[m] == even_digit(draws@[draws.len() - 1]));
        assert forall|t: int| 0 <= t < m implies text@[t] == expected[t] by {
            assert(text@[t] == before_pop[t]);
        }
        assert(text@ =~= expected);
        assert(all_ascii_digits(text@));
        lemma_decimal_parity(text@);
        lemma_decimal_digit_count(text@);
        assert(text@[0] == before_pop[0] || text.len() == 1);
    }
    parse_decimal(&text)
}

/// A decimal numeral has the parity of its last digit.
proof fn lemma_decimal_parity(s: Seq<u8>)
    requires
        s.len() > 0,
        (s.last() - 48) % 2 == 0,
        s.last() >= 48,
    ensures
        decimal_value(s) % 2 == 0,
{
    let v = decimal_value(s.drop_last());
    let d = (s.last() - 48) as nat;
    assert((v * 10 + d) % 2 == 0) by (nonlinear_arith)
        requires d % 2 == 0;
}

/// Generates a random even number with the given number of digits, drawing
/// from `rng`. Returns `(N, empty factor list)`: no factors are known.
pub fn random_even<R: FnMut() -> u64>(digits: usize, rng: &mut R) -> (res: (BigNat, Vec<u64>))
    requires
        digits < usize::MAX,
        forall|r: R| call_requires(r, ()),
    ensures
        res.1.len() == 0,
        res.0@ % 2 == 0,
        digits >= 2 ==> pow10((digits - 1) as nat) <= res.0@ < pow10(digits as nat),
        digits <= 1 ==> res.0@ < 10,
        exists|draws: Seq<u64>|
            draws.len() == draws_needed(digits as nat) && res.0@ == decimal_value(
                #[trigger] random_even_text(digits as nat, draws),
            ),
{
    let count: usize = if digits == 0 {
        2
    } else {
        digits + 1
    };
    let mut draws: Vec<u64> = Vec::new();
    let mut k: usize = 0;
    while k < count
        invariant
            k <= count,
            count == draws_needed(digits as nat),
            draws.len() == k,
            forall|r: R| call_requires(r, ()),
        decreases count - k,
    {
        let d = rng();
        draws.push(d);
        k = k + 1;
    }
    let n = even_number_from_draws(digits, &draws);
    (n, Vec::new())
}

/// One step of the seeded generator: `state * 6364136223846793005 + 1`,
/// modulo `2^64`.
pub open spec fn lcg_next(state: u64) -> u64 {
    ((state as nat * 6364136223846793005 + 1) % 18446744073709551616) as u64
}

/// The generator's state after `k` steps from `seed`.
pub open spec fn lcg_state(seed: u64, k: nat) -> u64
    decreases k,
{
    if k == 0 {
        seed
    } else {
        lcg_next(lcg_state(seed, (k - 1) as nat))
    }
}

/// The first `count` draws from `seed`: the top 31 bits of each state after
/// a step.
pub open spec fn lcg_draws(seed: u64, count: nat) -> Seq<u64> {
    Seq::new(count, |j: int| (lcg_state(seed, (j + 1) as nat) / 8589934592) as u64)
}

/// Draws `count` values from the generator seeded with `seed`.
pub fn seeded_draws(seed: u64, count: usize) -> (res: Vec<u64>)
    ensures
        res@ == lcg_draws(seed, count as nat),
{
    let mut state = seed;
    let mut draws: Vec<u64> = Vec::new();
    let mut k: usize = 0;
    while k < count
        invariant
            k <= count,
            state == lcg_state(seed, k as nat),
            draws@ == lcg_draws(seed, k as nat),
        decreases count - k,
    {
        let product = state.wrapping_mul(6364136223846793005);
        let next = product.wrapping_add(1);
        proof {
            let m: int = 18446744073709551616;
            let x: int = state as int * 6364136223846793005;
            assert(product == x % m);
            vstd::arithmetic::div_mod::lemma_add_mod_noop(x, 1, m);
            vstd::arithmetic::div_mod::lemma_small_mod(1, m as nat);
            if product + 1 > u64::MAX {
                vstd::arithmetic::div_mod::lemma_mod_self_0(m);
            } else {
                vstd::arithmetic::div_mod::lemma_small_mod((product + 1) as nat, m as nat);
            }
            assert(next == lcg_next(state));
        }
        state = next;
        let d = state >> 33;
        assert(d == state / 8589934592) by (bit_vector)
            requires d == state >> 33;
        draws.push(d);
        proof {
            assert(draws@ =~= lcg_draws(seed, (k + 1) as nat));
        }
        k = k + 1;
    }
    draws
}

/// A random even number of `digits` digits from the generator seeded with
/// `seed`: the number that `lcg_draws(seed, ..)` give.
pub fn random_even_from_seed(digits: usize, seed: u64) -> (res: BigNat)
    requires
        digits < usize::MAX,
    ensures
        res@ == decimal_value(
            random_even_text(digits as nat, lcg_draws(seed, draws_needed(digits as nat))),
        ),
        res@ % 2 == 0,
        digits >= 2 ==> pow10((digits - 1) as nat) <= res@ < pow10(digits as nat),
        digits <= 1 ==> res@ < 10,
{
    let count: usize = if digits == 0 {
        2
    } else {
        digits + 1
    };
    let draws = seeded_draws(seed, count);
    even_number_from_draws(digits, &draws)
}

} // verus!
