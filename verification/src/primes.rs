//! Primes: the primality predicate, the list of primes up to a bound, and
//! the sieve of Eratosthenes that computes it.
use crate::arith::{lemma_divides_trans, lemma_mod_multiple_step};
use vstd::arithmetic::div_mod::*;
use vstd::arithmetic::mul::*;
use vstd::prelude::*;

verus! {

/// `n` is prime: at least 2 and without a divisor strictly between 1 and `n`.
pub open spec fn is_prime(n: nat) -> bool {
    n >= 2 && forall|d: nat| 2 <= d < n ==> #[trigger] (n % d) != 0
}

/// `s` lists, in strictly increasing order, exactly the primes up to `limit`.
pub open spec fn lists_primes_up_to(s: Seq<u64>, limit: nat) -> bool {
    &&& forall|i: int| 0 <= i < s.len() ==> is_prime(#[trigger] s[i] as nat) && s[i] <= limit
    &&& forall|i: int, j: int| 0 <= i < j < s.len() ==> s[i] < s[j]
    &&& forall|p: nat| is_prime(p) && p <= limit ==> s.contains(p as u64)
}

/// The primes up to `limit`, in increasing order.
pub open spec fn primes_upto_seq(limit: nat) -> Seq<u64>
    decreases limit,
{
    if limit < 2 {
        Seq::empty()
    } else if is_prime(limit) {
        primes_upto_seq((limit - 1) as nat).push(limit as u64)
    } else {
        primes_upto_seq((limit - 1) as nat)
    }
}

/// `primes_upto_seq` lists exactly the primes up to `limit`, increasing.
pub proof fn lemma_primes_upto_seq(limit: nat)
    requires
        limit <= u64::MAX,
    ensures
        lists_primes_up_to(primes_upto_seq(limit), limit),
    decreases limit,
{
    if limit >= 2 {
        let prev = primes_upto_seq((limit - 1) as nat);
        lemma_primes_upto_seq((limit - 1) as nat);
        let cur = primes_upto_seq(limit);
        assert forall|p: nat| is_prime(p) && p <= limit implies cur.contains(p as u64) by {
            if p < limit {
                let w = choose|w: int| 0 <= w < prev.len() && prev[w] == p as u64;
                assert(cur[w] == p as u64);
            } else {
                assert(cur[cur.len() - 1] == p as u64);
            }
        }
    }
}

/// There are at most `limit` primes up to `limit`.
pub proof fn lemma_primes_upto_seq_len(limit: nat)
    ensures
        primes_upto_seq(limit).len() <= limit,
    decreases limit,
{
    if limit >= 2 {
        lemma_primes_upto_seq_len((limit - 1) as nat);
    }
}

/// Law: for `a <= b`, the primes up to `a` are the first entries of the
/// primes up to `b`, and every later entry exceeds `a`.
pub proof fn lemma_primes_upto_prefix(a: nat, b: nat)
    requires
        a <= b,
        b <= u64::MAX,
    ensures
        primes_upto_seq(a).len() <= primes_upto_seq(b).len(),
        primes_upto_seq(b).take(primes_upto_seq(a).len() as int) == primes_upto_seq(a),
        forall|i: int|
            primes_upto_seq(a).len() <= i < primes_upto_seq(b).len() ==> #[trigger] primes_upto_seq(b)[i]
                > a,
    decreases b,
{
    let sa = primes_upto_seq(a);
    let sb = primes_upto_seq(b);
    if a == b {
        assert(sb.take(sa.len() as int) =~= sa);
    } else {
        let prev = primes_upto_seq((b - 1) as nat);
        lemma_primes_upto_prefix(a, (b - 1) as nat);
        if b >= 2 && is_prime(b) {
            assert(sb == prev.push(b as u64));
            assert(sb.take(sa.len() as int) =~= prev.take(sa.len() as int));
            assert forall|i: int| sa.len() <= i < sb.len() implies #[trigger] sb[i] > a by {
                if i < prev.len() {
                    assert(sb[i] == prev[i]);
                }
            }
        } else {
            assert(sb == prev);
        }
    }
}

/// `j` has no divisor `d` with `2 <= d < bound` and `d * d <= j`, and is at least 2.
pub open spec fn survives_below(j: int, bound: int) -> bool {
    j >= 2 && forall|d: int| 2 <= d < bound && d * d <= j ==> #[trigger] (j % d) != 0
}

/// A number that is at least 2 and not prime has a divisor `d >= 2` with `d * d <= n`.
pub proof fn lemma_composite_has_small_factor(n: nat) -> (d: nat)
    requires
        n >= 2,
        !is_prime(n),
    ensures
        2 <= d,
        d * d <= n,
        n % d == 0,
{
    let d0 = choose|d: nat| 2 <= d < n && #[trigger] (n % d) == 0;
    lemma_fundamental_div_mod(n as int, d0 as int);
    let e = n / d0;
    assert(n == d0 * e);
    assert(e >= 2) by {
        if e < 2 {
            assert(d0 * e <= d0) by (nonlinear_arith)
                requires e < 2, d0 >= 2;
        }
    }
    if d0 * d0 <= n {
        d0
    } else {
        assert(e * e <= n) by (nonlinear_arith)
            requires d0 * d0 > n, n == d0 * e, e >= 2, d0 >= 2;
        assert(n % e == 0) by {
            lemma_mul_is_commutative(d0 as int, e as int);
            lemma_mod_multiples_basic(d0 as int, e as int);
        }
        e
    }
}

/// Below `bound` with `bound * bound > j`, surviving every small divisor means being prime.
pub proof fn lemma_survivor_is_prime(j: int, bound: int)
    requires
        j >= 0,
        bound * bound > j,
        bound >= 2,
    ensures
        survives_below(j, bound) <==> is_prime(j as nat),
{
    if survives_below(j, bound) && !is_prime(j as nat) {
        let d = lemma_composite_has_small_factor(j as nat);
        assert(d < bound) by (nonlinear_arith)
            requires d * d <= j, bound * bound > j, d >= 2, bound >= 2;
        assert((j % (d as int)) != 0);
    }
    if is_prime(j as nat) {
        assert forall|d: int| 2 <= d < bound && d * d <= j implies #[trigger] (j % d) != 0 by {
            assert(d <= j) by (nonlinear_arith)
                requires d * d <= j, d >= 2;
            if d == j {
                assert(d * d > j) by (nonlinear_arith)
                    requires d == j, d >= 2;
            }
            assert((j as nat) % (d as nat) != 0);
        }
    }
}

/// `j` survives the divisors below `i + 1` exactly when it survives those below `i`
/// and is not a multiple of `i` at or above `i * i`.
pub proof fn lemma_survives_step(t: int, i: int)
    requires
        i >= 2,
    ensures
        survives_below(t, i + 1) == (survives_below(t, i) && !(i * i <= t && t % i == 0)),
{
    if survives_below(t, i) && !(i * i <= t && t % i == 0) {
        assert forall|d: int| 2 <= d < i + 1 && d * d <= t implies #[trigger] (t % d) != 0 by {
            if d < i {
                assert(2 <= d < i && d * d <= t);
            }
        }
    }
    if survives_below(t, i + 1) {
        assert forall|d: int| 2 <= d < i && d * d <= t implies #[trigger] (t % d) != 0 by {
            assert(2 <= d < i + 1 && d * d <= t);
        }
        if i * i <= t {
            assert(2 <= i < i + 1 && i * i <= t);
        }
    }
}

/// Whether `i * i <= limit`, computed without overflow.
pub(crate) fn square_at_most(i: u64, limit: u64) -> (res: bool)
    ensures
        res == (i * i <= limit),
{
    assert((i as u128) * (i as u128) <= u128::MAX) by (nonlinear_arith)
        requires i <= u64::MAX;
    (i as u128) * (i as u128) <= limit as u128
}

/// Sieve of Eratosthenes: all primes up to `limit`, in increasing order.
pub fn primes_up_to(limit: u64) -> (res: Vec<u64>)
    requires
        limit < usize::MAX,
    ensures
        res@ == primes_upto_seq(limit as nat),
        lists_primes_up_to(res@, limit as nat),
{
    if limit < 2 {
        let res: Vec<u64> = Vec::new();
        proof {
            lemma_primes_upto_seq(limit as nat);
        }
        return res;
    }
    let n: usize = (limit + 1) as usize;
    let mut flags: Vec<bool> = Vec::new();
    let mut k: usize = 0;
    while k < n
        invariant
            k <= n,
            flags.len() == k,
            forall|t: int| 0 <= t < k ==> flags[t],
        decreases n - k,
    {
        flags.push(true);
        k = k + 1;
    }
    flags.set(0, false);
    flags.set(1, false);
    assert forall|t: int| 0 <= t < n implies flags[t] == survives_below(t, 2) by {}
    let mut i: u64 = 2;
    while square_at_most(i, limit)
        invariant
            2 <= i <= limit + 1,
            (i - 1) * (i - 1) <= limit,
            n == limit + 1,
            flags.len() == n,
            forall|t: int| 0 <= t < n ==> flags[t] == survives_below(t, i as int),
        decreases limit + 1 - i,
    {
        assert(i <= limit) by (nonlinear_arith)
            requires i * i <= limit, i >= 2;
        if flags[i as usize] {
            proof {
                lemma_mod_multiple_step(i as int, i as int);
            }
            let mut j: u128 = (i * i) as u128;
            while j <= limit as u128
                invariant
                    2 <= i <= limit,
                    i * i <= j,
                    j % (i as u128) == 0,
                    j <= limit + i,
                    n == limit + 1,
                    flags.len() == n,
                    forall|t: int|
                        0 <= t < n ==> flags[t] == (survives_below(t, i as int) && !(i * i <= t < j
                            && t % (i as int) == 0)),
                decreases limit + i - j,
            {
                flags.set(j as usize, false);
                let ghost jj: int = j as int;
                proof {
                    lemma_mod_multiple_step(j as int, i as int);
                }
                assert forall|t: int| 0 <= t < n implies flags[t] == (survives_below(t, i as int)
                    && !(i * i <= t < j + i && t % (i as int) == 0)) by {
                    if j < t < j + i && t % (i as int) == 0 {
                        lemma_fundamental_div_mod(t, i as int);
                        lemma_fundamental_div_mod(j as int, i as int);
                        let qt = t / (i as int);
                        let qj = (j as int) / (i as int);
                        assert(false) by (nonlinear_arith)
                            requires t == i * qt, j == i * qj, j < t < j + i, i >= 2;
                    }
                }
                j = j + i as u128;
            }
            assert forall|t: int| 0 <= t < n implies flags[t] == survives_below(t, i + 1) by {
                lemma_survives_step(t, i as int);
            }
        } else {
            assert forall|t: int| 0 <= t < n implies flags[t] == survives_below(t, i + 1) by {
                lemma_survives_step(t, i as int);
                if survives_below(t, i as int) && i * i <= t && t % (i as int) == 0 {
                    assert(!survives_below(i as int, i as int));
                    let d = choose|d: int| 2 <= d < i && d * d <= i && #[trigger] ((i as int) % d) == 0;
                    lemma_divides_trans(d, i as int, t);
                    assert(d * d <= t) by (nonlinear_arith)
                        requires d * d <= i, i * i <= t, i >= 2;
                    assert(t % d != 0);
                }
            }
        }
        i = i + 1;
    }
    let mut res: Vec<u64> = Vec::new();
    let mut v: u64 = 2;
    while v <= limit
        invariant
            2 <= v <= limit + 1,
            i * i > limit,
            i >= 2,
            n == limit + 1,
            flags.len() == n,
            forall|t: int| 0 <= t < n ==> flags[t] == survives_below(t, i as int),
            res@ == primes_upto_seq((v - 1) as nat),
        decreases limit + 1 - v,
    {
        proof {
            lemma_survivor_is_prime(v as int, i as int);
        }
        if flags[v as usize] {
            res.push(v);
        }
        v = v + 1;
    }
    proof {
        lemma_primes_upto_seq(limit as nat);
    }
    res
}

} // verus!
