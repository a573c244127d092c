//! Facts of divisibility and remainders used by the sieves.
use vstd::arithmetic::div_mod::*;
use vstd::arithmetic::mul::*;
use vstd::prelude::*;

verus! {

/// Divisibility is transitive: `d | i` and `i | k` give `d | k`.
pub proof fn lemma_divides_trans(d: int, i: int, k: int)
    requires
        0 < d,
        0 < i,
        i % d == 0,
        k % i == 0,
    ensures
        k % d == 0,
{
    lemma_fundamental_div_mod(i, d);
    lemma_fundamental_div_mod(k, i);
    let a = i / d;
    let b = k / i;
    assert(k == d * (a * b)) by {
        lemma_mul_is_associative(d, a, b);
    }
    assert((d * (a * b)) % d == 0) by {
        lemma_mul_is_commutative(d, a * b);
        lemma_mod_multiples_basic(a * b, d);
    }
}

/// A multiple of `d` plus a multiple of `d` is a multiple of `d`.
pub proof fn lemma_mod_multiple_step(k: int, d: int)
    requires
        0 < d,
    ensures
        (k + d) % d == k % d,
        (k * d) % d == 0,
{
    lemma_mod_add_multiples_vanish(k, d);
    lemma_mod_multiples_basic(k, d);
}

} // verus!

verus! {

/// Within a window of width `r` that starts at a multiple of `r`, the only
/// multiple of `r` is the start.
pub proof fn lemma_unique_multiple_in_window(a: int, x: int, r: int)
    requires
        r > 0,
        a % r == 0,
        x % r == 0,
        a <= x < a + r,
    ensures
        x == a,
{
    lemma_fundamental_div_mod(a, r);
    lemma_fundamental_div_mod(x, r);
    let qa = a / r;
    let qx = x / r;
    assert(qx == qa) by (nonlinear_arith)
        requires a == r * qa, x == r * qx, a <= x < a + r, r > 0;
}

/// Subtracting a multiple of `r` does not change divisibility by `r`.
pub proof fn lemma_shift_by_multiple(x: int, y: int, r: int)
    requires
        r > 0,
        y % r == 0,
    ensures
        ((x - y) % r == 0) == (x % r == 0),
        (x - y) % r == x % r,
{
    lemma_sub_mod_noop(x, y, r);
    lemma_mod_twice(x, r);
    lemma_mod_bound(x, r);
    lemma_small_mod((x % r) as nat, r as nat);
}

/// The first multiple of `r` above `base`, when `r` does not divide `base`,
/// is `base + (r - base % r)`.
pub proof fn lemma_next_multiple(base: int, r: int)
    requires
        r > 0,
        base >= 0,
        base % r != 0,
    ensures
        (base + (r - base % r)) % r == 0,
        0 < base % r < r,
{
    lemma_fundamental_div_mod(base, r);
    lemma_mod_bound(base, r);
    let q = base / r;
    assert(base + (r - base % r) == r * (q + 1)) by (nonlinear_arith)
        requires base == r * q + base % r;
    assert((r * (q + 1)) % r == 0) by {
        lemma_mul_is_commutative(r, q + 1);
        lemma_mod_multiples_basic(q + 1, r);
    }
}

/// Every multiple of `r` at or above `base` is at or above
/// `base + (r - base % r)` when `r` does not divide `base`.
pub proof fn lemma_first_multiple(base: int, r: int, m: int)
    requires
        r > 0,
        base >= 0,
        base % r != 0,
        m % r == 0,
        m >= base,
    ensures
        m >= base + (r - base % r),
{
    lemma_fundamental_div_mod(base, r);
    lemma_mod_bound(base, r);
    let q = base / r;
    lemma_fundamental_div_mod(m, r);
    let qm = m / r;
    assert(qm >= q + 1) by (nonlinear_arith)
        requires m == r * qm, m >= base, base == r * q + base % r, 0 < base % r < r, r > 0;
    assert(m >= r * (q + 1)) by (nonlinear_arith)
        requires m == r * qm, qm >= q + 1, r > 0;
    assert(base == r * q + base % r);
    assert(r * (q + 1) == r * q + r) by (nonlinear_arith);
}

/// Two numbers differ by a multiple of `r` exactly when they leave the same remainder.
pub proof fn lemma_same_residue(x: int, y: int, r: int)
    requires
        r > 0,
    ensures
        ((x - y) % r == 0) == (x % r == y % r),
{
    lemma_fundamental_div_mod(x, r);
    lemma_fundamental_div_mod(y, r);
    lemma_fundamental_div_mod(x - y, r);
    lemma_mod_bound(x, r);
    lemma_mod_bound(y, r);
    lemma_mod_bound(x - y, r);
    let qx = x / r;
    let qy = y / r;
    let qd = (x - y) / r;
    if (x - y) % r == 0 {
        assert(x % r == y % r) by (nonlinear_arith)
            requires
                x == r * qx + x % r,
                y == r * qy + y % r,
                x - y == r * qd,
                0 <= x % r < r,
                0 <= y % r < r,
                r > 0,
        {
            assert(x % r - y % r == r * (qd - qx + qy));
        }
    }
    if x % r == y % r {
        assert(x - y == r * (qx - qy)) by (nonlinear_arith)
            requires x == r * qx + x % r, y == r * qy + y % r, x % r == y % r;
        lemma_mod_multiples_basic(qx - qy, r);
        lemma_mul_is_commutative(qx - qy, r);
    }
}

/// A multiple of `r` above `-r` is not negative.
pub proof fn lemma_multiple_above_minus_r(d: int, r: int)
    requires
        r > 0,
        d % r == 0,
        d > -r,
    ensures
        d >= 0,
{
    lemma_fundamental_div_mod(d, r);
    let q = d / r;
    assert(d >= 0) by (nonlinear_arith)
        requires d == r * q, d > -r, r > 0;
}

/// The offset at which the residue `target` first occurs from `base` on.
pub proof fn lemma_residue_offset(base: int, r: int, target: int)
    requires
        r > 0,
        base >= 0,
        0 <= target < r,
    ensures
        ({
            let bm = base % r;
            let off = if target >= bm { target - bm } else { target + r - bm };
            0 <= off < r && (base + off) % r == target
        }),
{
    lemma_fundamental_div_mod(base, r);
    lemma_mod_bound(base, r);
    let bm = base % r;
    let q = base / r;
    let off = if target >= bm { target - bm } else { target + r - bm };
    if target >= bm {
        assert(base + off == r * q + target);
        lemma_mod_multiples_vanish(q, target, r);
        lemma_mul_is_commutative(q, r);
    } else {
        assert(base + off == r * (q + 1) + target) by (nonlinear_arith)
            requires base == r * q + bm, off == target + r - bm;
        lemma_mod_multiples_vanish(q + 1, target, r);
        lemma_mul_is_commutative(q + 1, r);
    }
    lemma_small_mod(target as nat, r as nat);
}

} // verus!
