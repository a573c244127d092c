//! The two sieves of a segment `[base, base + b)`: one keeps the primes, the
//! other marks the `p` whose partner `N - p` has a small prime factor.
use crate::arith::{lemma_first_multiple, lemma_next_multiple, lemma_shift_by_multiple, lemma_unique_multiple_in_window};
use crate::primes::{is_prime, square_at_most};
use vstd::prelude::*;

verus! {

/// The index of the first entry, from `k` on, whose square exceeds `limit`,
/// or the length where there is none.
pub open spec fn sieve_cutoff_from(sp: Seq<u64>, limit: int, k: int) -> int
    decreases sp.len() - k,
{
    if k < 0 || k >= sp.len() || sp[k] * sp[k] > limit {
        k
    } else {
        sieve_cutoff_from(sp, limit, k + 1)
    }
}

/// How many leading entries of `sp` the segmented sieve uses below `limit`:
/// it stops at the first whose square exceeds `limit`.
pub open spec fn sieve_cutoff(sp: Seq<u64>, limit: int) -> int {
    sieve_cutoff_from(sp, limit, 0)
}

/// `n` is struck out by one of the first `count` entries `r` of `sp`: a
/// multiple of `r` at or above `r * r`.
pub open spec fn struck_out(sp: Seq<u64>, count: int, n: int) -> bool {
    exists|j: int| 0 <= j < count && #[trigger] (n % (sp[j] as int)) == 0 && n >= sp[j] * sp[j]
}

/// `sp` lists primes in increasing order, among them every prime whose square
/// is below `limit`.
pub open spec fn sieve_covers(sp: Seq<u64>, limit: int) -> bool {
    &&& forall|i: int| 0 <= i < sp.len() ==> is_prime(#[trigger] sp[i] as nat)
    &&& forall|i: int, j: int| 0 <= i < j < sp.len() ==> sp[i] < sp[j]
    &&& forall|q: nat| is_prime(q) && q * q < limit ==> sp.contains(q as u64)
}

/// `p` is marked by the second sieve through one of the first `count` entries
/// `r` of `sp`: `p` has the residue `rem[j] % r` modulo `r`, unless `n` is
/// known and `n - p` is `r` itself.
pub open spec fn partner_struck_by(
    sp: Seq<u64>,
    rem: Seq<u64>,
    n: Option<u64>,
    count: int,
    p: int,
) -> bool {
    exists|j: int|
        0 <= j < count && #[trigger] (p % (sp[j] as int)) == (rem[j] % sp[j]) as int && !(n matches Some(
            v,
        ) && p + sp[j] == v)
}

/// `p` is marked by the second sieve through some entry of `sp`.
pub open spec fn partner_struck(sp: Seq<u64>, rem: Seq<u64>, n: Option<u64>, p: int) -> bool {
    partner_struck_by(sp, rem, n, sp.len() as int, p)
}

pub proof fn lemma_cutoff(sp: Seq<u64>, limit: int, k: int)
    requires
        0 <= k <= sp.len(),
    ensures
        k <= sieve_cutoff_from(sp, limit, k) <= sp.len(),
        forall|j: int| k <= j < sieve_cutoff_from(sp, limit, k) ==> sp[j] * sp[j] <= limit,
        sieve_cutoff_from(sp, limit, k) < sp.len() ==> sp[sieve_cutoff_from(sp, limit, k)]
            * sp[sieve_cutoff_from(sp, limit, k)] > limit,
    decreases sp.len() - k,
{
    if k < sp.len() && sp[k] * sp[k] <= limit {
        lemma_cutoff(sp, limit, k + 1);
    }
}

/// Every number of at least 2 has a prime factor no larger than itself.
pub proof fn lemma_prime_factor(d: nat) -> (q: nat)
    requires
        d >= 2,
    ensures
        is_prime(q),
        2 <= q <= d,
        d % q == 0,
    decreases d,
{
    if is_prime(d) {
        vstd::arithmetic::div_mod::lemma_mod_self_0(d as int);
        d
    } else {
        let e = choose|e: nat| 2 <= e < d && #[trigger] (d % e) == 0;
        let q = lemma_prime_factor(e);
        crate::arith::lemma_divides_trans(q as int, e as int, d as int);
        q
    }
}

/// With a covering list, the numbers below `limit` that the sieve strikes out
/// are exactly those of at least 2 that are not prime.
proof fn lemma_struck_iff_composite(sp: Seq<u64>, limit: int, n: int)
    requires
        sieve_covers(sp, limit),
        0 <= n < limit,
        limit <= u64::MAX,
    ensures
        struck_out(sp, sieve_cutoff(sp, limit), n) == (n >= 2 && !is_prime(n as nat)),
{
    let c = sieve_cutoff(sp, limit);
    lemma_cutoff(sp, limit, 0);
    if struck_out(sp, c, n) {
        let j = choose|j: int| 0 <= j < c && #[trigger] (n % (sp[j] as int)) == 0 && n >= sp[j] * sp[j];
        let r = sp[j] as int;
        assert(is_prime(r as nat));
        assert(n >= 2) by (nonlinear_arith)
            requires n >= r * r, r >= 2;
        assert(r < n) by (nonlinear_arith)
            requires n >= r * r, r >= 2;
        assert((n as nat) % (r as nat) == 0);
    }
    if n >= 2 && !is_prime(n as nat) {
        let d = crate::primes::lemma_composite_has_small_factor(n as nat);
        let q = lemma_prime_factor(d);
        crate::arith::lemma_divides_trans(q as int, d as int, n);
        assert(q * q <= n) by (nonlinear_arith)
            requires q <= d, d * d <= n, q >= 2;
        assert(q <= n) by (nonlinear_arith)
            requires q * q <= n, q >= 2;
        assert(sp.contains(q as u64));
        let j = choose|j: int| 0 <= j < sp.len() && sp[j] == q as u64;
        if c <= j {
            assert(sp[c] <= sp[j]);
            assert(sp[c] * sp[c] <= q * q) by (nonlinear_arith)
                requires sp[c] <= q, sp[c] >= 0;
        }
        assert(sp[j] as int == q as int);
        assert(n % (sp[j] as int) == 0 && n >= sp[j] * sp[j]);
    }
}

/// `b` copies of `value`.
fn filled(b: usize, value: u8) -> (res: Vec<u8>)
    ensures
        res.len() == b,
        forall|t: int| 0 <= t < b ==> res[t] == value,
{
    let mut res: Vec<u8> = Vec::new();
    let mut k: usize = 0;
    while k < b
        invariant
            k <= b,
            res.len() == k,
            forall|t: int| 0 <= t < k ==> res[t] == value,
        decreases b - k,
    {
        res.push(value);
        k = k + 1;
    }
    res
}

/// Sets to 0 every position `first, first + r, first + 2r, ...` below the length.
fn strike_multiples(buf: &mut Vec<u8>, first: u128, r: u64)
    requires
        r > 0,
    ensures
        final(buf).len() == old(buf).len(),
        forall|t: int|
            0 <= t < old(buf).len() ==> final(buf)[t] == (if t >= first && (t - first) % (r as int)
                == 0 {
                0u8
            } else {
                old(buf)[t]
            }),
{
    let len = buf.len();
    let mut j: u128 = first;
    proof {
        vstd::arithmetic::div_mod::lemma_small_mod(0, r as nat);
    }
    while j < len as u128
        invariant
            j >= first,
            (j - first) % (r as int) == 0,
            buf.len() == len,
            len == old(buf).len(),
            r > 0,
            forall|t: int|
                0 <= t < len ==> buf[t] == (if first <= t < j && (t - first) % (r as int) == 0 {
                    0u8
                } else {
                    old(buf)[t]
                }),
        decreases (len as int) + (r as int) - (j as int),
    {
        buf.set(j as usize, 0);
        proof {
            vstd::arithmetic::div_mod::lemma_mod_add_multiples_vanish(j - first, r as int);
            assert forall|t: int| 0 <= t < len implies buf[t] == (if first <= t < j + r && (t - first)
                % (r as int) == 0 {
                0u8
            } else {
                old(buf)[t]
            }) by {
                if j <= t < j + r && (t - first) % (r as int) == 0 {
                    lemma_unique_multiple_in_window(j - first, t - first, r as int);
                }
            }
        }
        j = j + r as u128;
    }
}

/// Segmented sieve of Eratosthenes: `res[i] == 1` where `base + i` is prime,
/// for `i < b`. `small_primes` should hold all primes up to the square root
/// of `base + b`.
pub fn segmented_sieve(base: u64, b: usize, small_primes: &[u64]) -> (res: Vec<u8>)
    requires
        base + b <= u64::MAX,
        forall|j: int|
            0 <= j < sieve_cutoff(small_primes@, base + b) ==> #[trigger] small_primes@[j] > 0,
    ensures
        res.len() == b,
        forall|i: int|
            0 <= i < b ==> res[i] == (if struck_out(
                small_primes@,
                sieve_cutoff(small_primes@, base + b),
                base + i,
            ) || base + i < 2 {
                0u8
            } else {
                1u8
            }),
        sieve_covers(small_primes@, base + b) ==> forall|i: int|
            0 <= i < b ==> (res[i] == 1) == is_prime((base + i) as nat),
{
    let ghost sp = small_primes@;
    let limit: u64 = base + b as u64;
    let ghost c = sieve_cutoff(sp, limit as int);
    proof {
        lemma_cutoff(sp, limit as int, 0);
    }
    let mut buf = filled(b, 1);
    let mut k: usize = 0;
    while k < small_primes.len() && square_at_most(small_primes[k], limit)
        invariant
            0 <= k <= c,
            c == sieve_cutoff(sp, limit as int),
            c <= sp.len(),
            sp == small_primes@,
            limit == base + b,
            forall|j: int| 0 <= j < c ==> #[trigger] sp[j] > 0,
            forall|j: int| 0 <= j < c ==> sp[j] * sp[j] <= limit,
            c < sp.len() ==> sp[c] * sp[c] > limit,
            buf.len() == b,
            forall|t: int|
                0 <= t < b ==> buf[t] == (if struck_out(sp, k as int, base + t) {
                    0u8
                } else {
                    1u8
                }),
        decreases sp.len() - k,
    {
        let r = small_primes[k];
        let rr: u128 = (r as u128) * (r as u128);
        let first_multiple: u128 = if base == 0 {
            rr
        } else {
            let rem = base % r;
            if rem == 0 {
                base as u128
            } else {
                base as u128 + (r - rem) as u128
            }
        };
        let start: u128 = if first_multiple < rr {
            rr
        } else {
            first_multiple
        };
        let ghost before = buf@;
        proof {
            assert((start as int) % (r as int) == 0) by {
                if base != 0 && base % r != 0 {
                    lemma_next_multiple(base as int, r as int);
                }
                vstd::arithmetic::div_mod::lemma_mod_multiples_basic(r as int, r as int);
            }
        }
        if start < limit as u128 {
            strike_multiples(&mut buf, start - base as u128, r);
        }
        proof {
            assert forall|t: int| 0 <= t < b implies buf[t] == (if struck_out(sp, k + 1, base + t) {
                0u8
            } else {
                1u8
            }) by {
                let n = base + t;
                let hit = n % (r as int) == 0 && n >= r * r;
                if hit {
                    // the struck multiple lies at or after `start`
                    if base != 0 && base % r != 0 {
                        lemma_first_multiple(base as int, r as int, n);
                    }
                    assert(n >= r * r);
                    assert(n >= start);
                    lemma_shift_by_multiple(n, start as int, r as int);
                    assert(t - (start - base) == n - start);
                    assert(n % (sp[k as int] as int) == 0 && n >= sp[k as int] * sp[k as int]);
                } else if start < limit && t >= start - base && (t - (start - base)) % (r as int) == 0 {
                    lemma_shift_by_multiple(n, start as int, r as int);
                    assert(false);
                }
                if struck_out(sp, k + 1, n) && !struck_out(sp, k as int, n) {
                    let j = choose|j: int| 0 <= j < k + 1 && #[trigger] (n % (sp[j] as int)) == 0 && n
                        >= sp[j] * sp[j];
                    assert(j == k);
                }
                if struck_out(sp, k as int, n) {
                    let j = choose|j: int| 0 <= j < k && #[trigger] (n % (sp[j] as int)) == 0 && n
                        >= sp[j] * sp[j];
                    assert(0 <= j < k + 1);
                }
            }
        }
        k = k + 1;
    }
    assert(k == c);
    if base == 0 {
        if b > 0 {
            buf.set(0, 0);
        }
        if b > 1 {
            buf.set(1, 0);
        }
    } else if base == 1 && b > 0 {
        buf.set(0, 0);
    }
    proof {
        if sieve_covers(sp, limit as int) {
            assert forall|i: int| 0 <= i < b implies (buf[i] == 1) == is_prime((base + i) as nat) by {
                lemma_struck_iff_composite(sp, limit as int, base + i);
            }
        }
    }
    buf
}

/// Sets to 1 every position `first, first + r, ...` below the length, except
/// the one of `p = base + t` with `p + r == v` when `n` is `Some(v)`.
fn mark_residue(buf: &mut Vec<u8>, first: u64, r: u64, base: u64, n: Option<u64>)
    requires
        r > 0,
    ensures
        final(buf).len() == old(buf).len(),
        forall|t: int|
            0 <= t < old(buf).len() ==> final(buf)[t] == (if t >= first && (t - first) % (r as int)
                == 0 && !(n matches Some(v) && base + t + r == v) {
                1u8
            } else {
                old(buf)[t]
            }),
{
    let len = buf.len();
    let mut j: u128 = first as u128;
    proof {
        vstd::arithmetic::div_mod::lemma_small_mod(0, r as nat);
    }
    while j < len as u128
        invariant
            j >= first,
            (j - first) % (r as int) == 0,
            buf.len() == len,
            len == old(buf).len(),
            r > 0,
            forall|t: int|
                0 <= t < len ==> buf[t] == (if first <= t < j && (t - first) % (r as int) == 0 && !(
                n matches Some(v) && base + t + r == v) {
                    1u8
                } else {
                    old(buf)[t]
                }),
        decreases (len as int) + (r as int) - (j as int),
    {
        let skip = match n {
            Some(v) => base as u128 + j + r as u128 == v as u128,
            None => false,
        };
        if !skip {
            buf.set(j as usize, 1);
        }
        proof {
            vstd::arithmetic::div_mod::lemma_mod_add_multiples_vanish(j - first, r as int);
            assert forall|t: int| 0 <= t < len implies buf[t] == (if first <= t < j + r && (t - first)
                % (r as int) == 0 && !(n matches Some(v) && base + t + r == v) {
                1u8
            } else {
                old(buf)[t]
            }) by {
                if j <= t < j + r && (t - first) % (r as int) == 0 {
                    lemma_unique_multiple_in_window(j - first, t - first, r as int);
                }
            }
        }
        j = j + r as u128;
    }
}

/// Double sieve: `res[i] == 1` where `p = base + i` is marked by some entry
/// `r` of `small_primes`, that is, `p` leaves the remainder `rem[j] % r`,
/// unless `n` is `Some(N)` and `N - p == r`. With `rem[j] == N % r`, the
/// marked `p < N` are those for which `N - p` is a proper multiple of `r`.
pub fn double_sieve(
    base: u64,
    b: usize,
    small_primes: &[u64],
    rem: &[u64],
    n: Option<u64>,
) -> (res: Vec<u8>)
    requires
        small_primes.len() <= rem.len(),
        forall|j: int| 0 <= j < small_primes.len() ==> #[trigger] small_primes@[j] > 0,
    ensures
        res.len() == b,
        forall|i: int|
            0 <= i < b ==> res[i] == (if partner_struck(small_primes@, rem@, n, base + i) {
                1u8
            } else {
                0u8
            }),
{
    let ghost sp = small_primes@;
    let mut buf = filled(b, 0);
    let mut k: usize = 0;
    while k < small_primes.len()
        invariant
            0 <= k <= sp.len(),
            sp == small_primes@,
            sp.len() <= rem.len(),
            forall|j: int| 0 <= j < sp.len() ==> #[trigger] sp[j] > 0,
            buf.len() == b,
            forall|t: int|
                0 <= t < b ==> buf[t] == (if partner_struck_by(sp, rem@, n, k as int, base + t) {
                    1u8
                } else {
                    0u8
                }),
        decreases sp.len() - k,
    {
        let r = small_primes[k];
        let nr = rem[k];
        let base_mod = base % r;
        let target = nr % r;
        let offset: u64 = if target >= base_mod {
            target - base_mod
        } else {
            target + (r - base_mod)
        };
        proof {
            crate::arith::lemma_residue_offset(base as int, r as int, target as int);
        }
        let ghost before = buf@;
        mark_residue(&mut buf, offset, r, base, n);
        proof {
            assert forall|t: int| 0 <= t < b implies buf[t] == (if partner_struck_by(
                sp,
                rem@,
                n,
                k + 1,
                base + t,
            ) {
                1u8
            } else {
                0u8
            }) by {
                let p = base + t;
                crate::arith::lemma_same_residue(t, offset as int, r as int);
                crate::arith::lemma_same_residue(p, base + offset, r as int);
                assert(p - (base + offset) == t - offset);
                if (t - offset) % (r as int) == 0 {
                    crate::arith::lemma_multiple_above_minus_r(t - offset, r as int);
                }
                let hit = p % (r as int) == target as int && !(n matches Some(v) && p + r == v);
                if hit {
                    assert(p % (sp[k as int] as int) == (rem@[k as int] % sp[k as int]) as int);
                }
                if partner_struck_by(sp, rem@, n, k + 1, p) && !partner_struck_by(sp, rem@, n, k as int, p) {
                    let j = choose|j: int|
                        0 <= j < k + 1 && #[trigger] (p % (sp[j] as int)) == (rem@[j] % sp[j]) as int
                            && !(n matches Some(v) && p + sp[j] == v);
                    assert(j == k);
                }
                if partner_struck_by(sp, rem@, n, k as int, p) {
                    let j = choose|j: int|
                        0 <= j < k && #[trigger] (p % (sp[j] as int)) == (rem@[j] % sp[j]) as int
                            && !(n matches Some(v) && p + sp[j] == v);
                    assert(0 <= j < k + 1);
                }
            }
        }
        k = k + 1;
    }
    buf
}

/// Law: with the remainders of `n` (and `n` itself where it fits a `u64`),
/// the second sieve marks a `p` exactly when `n - p` is divisible by one of
/// the small primes, unless it is that prime itself (which only `n` known as
/// a `u64` lets it see).
pub proof fn lemma_double_sieve_marks_divisible_partners(
    sp: Seq<u64>,
    rem: Seq<u64>,
    n: nat,
    p: nat,
)
    requires
        sp.len() <= rem.len(),
        forall|j: int| 0 <= j < sp.len() ==> #[trigger] sp[j] > 0 && rem[j] == n % (sp[j] as nat),
    ensures
        partner_struck(sp, rem, if n <= u64::MAX { Some(n as u64) } else { None }, p as int)
            == exists|j: int|
            0 <= j < sp.len() && (n - p) % (#[trigger] sp[j] as int) == 0 && !(n <= u64::MAX && n
                - p == sp[j]),
{
    let n_opt = if n <= u64::MAX { Some(n as u64) } else { None::<u64> };
    if partner_struck(sp, rem, n_opt, p as int) {
        let j = choose|j: int|
            0 <= j < sp.len() && #[trigger] (p as int % (sp[j] as int)) == (rem[j] % sp[j]) as int
                && !(n_opt matches Some(v) && p + sp[j] == v);
        vstd::arithmetic::div_mod::lemma_mod_twice(n as int, sp[j] as int);
        crate::arith::lemma_same_residue(n as int, p as int, sp[j] as int);
        assert(0 <= j < sp.len() && (n - p) % (sp[j] as int) == 0);
    }
    if exists|j: int|
        0 <= j < sp.len() && (n - p) % (#[trigger] sp[j] as int) == 0 && !(n <= u64::MAX && n - p
            == sp[j]) {
        let j = choose|j: int|
            0 <= j < sp.len() && (n - p) % (#[trigger] sp[j] as int) == 0 && !(n <= u64::MAX && n - p
                == sp[j]);
        vstd::arithmetic::div_mod::lemma_mod_twice(n as int, sp[j] as int);
        crate::arith::lemma_same_residue(n as int, p as int, sp[j] as int);
        assert((p as int % (sp[j] as int)) == (rem[j] % sp[j]) as int);
    }
}

} // verus!
