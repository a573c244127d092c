//! Natural numbers of any size, held as little-endian 64-bit limbs, and the
//! arithmetic on them that GMP performs through `rug`.
use crate::primes::is_prime;
use rug::integer::{IsPrime, Order};
use rug::Integer;
use vstd::prelude::*;

verus! {

/// The radix of one limb.
pub open spec fn limb_base() -> nat {
    18446744073709551616
}

/// The value of little-endian limbs.
pub open spec fn limbs_value(s: Seq<u64>) -> nat
    decreases s.len(),
{
    if s.len() == 0 {
        0
    } else {
        s[0] as nat + limb_base() * limbs_value(s.drop_first())
    }
}

/// The value of a decimal numeral written in ASCII digits, most significant first.
pub open spec fn decimal_value(s: Seq<u8>) -> nat
    decreases s.len(),
{
    if s.len() == 0 {
        0
    } else {
        decimal_value(s.drop_last()) * 10 + (s.last() - 48) as nat
    }
}

/// `10` to the power `e`.
pub open spec fn pow10(e: nat) -> nat
    decreases e,
{
    if e == 0 {
        1
    } else {
        10 * pow10((e - 1) as nat)
    }
}

/// A numeral of `len` digits is below `10^len`, and at least `10^(len - 1)`
/// when it does not start with `0`.
pub proof fn lemma_decimal_digit_count(s: Seq<u8>)
    requires
        all_ascii_digits(s),
    ensures
        decimal_value(s) < pow10(s.len()),
        s.len() >= 1 && s[0] >= 49 ==> pow10((s.len() - 1) as nat) <= decimal_value(s),
    decreases s.len(),
{
    if s.len() > 0 {
        let pre = s.drop_last();
        assert(all_ascii_digits(pre)) by {
            assert forall|i: int| 0 <= i < pre.len() implies 48 <= #[trigger] pre[i] <= 57 by {
                assert(pre[i] == s[i]);
            }
        }
        lemma_decimal_digit_count(pre);
        let v = decimal_value(pre);
        let d = (s.last() - 48) as nat;
        assert(48 <= s[s.len() - 1] <= 57);
        let e = pow10(pre.len());
        assert(v * 10 + d < e * 10) by (nonlinear_arith)
            requires v < e, d <= 9;
        if s[0] >= 49 {
            if pre.len() >= 1 {
                assert(pre[0] == s[0]);
                let f = pow10((pre.len() - 1) as nat);
                assert(f * 10 <= v * 10 + d) by (nonlinear_arith)
                    requires f <= v;
            } else {
                assert(s.last() == s[0]);
            }
        }
    }
}

/// Every byte of `s` is an ASCII decimal digit.
pub open spec fn all_ascii_digits(s: Seq<u8>) -> bool {
    forall|i: int| 0 <= i < s.len() ==> 48 <= #[trigger] s[i] <= 57
}

/// A natural number without bound on its size.
pub struct BigNat {
    limbs: Vec<u64>,
}

impl BigNat {
    /// No limb of zero stands at the most significant end.
    #[verifier::type_invariant]
    spec fn normalized(self) -> bool {
        self.limbs.len() == 0 || self.limbs[self.limbs.len() - 1] != 0
    }
}

impl View for BigNat {
    type V = nat;

    closed spec fn view(&self) -> nat {
        limbs_value(self.limbs@)
    }
}

/// A trailing zero limb does not change the value.
pub proof fn lemma_value_trailing_zero(s: Seq<u64>)
    ensures
        limbs_value(s.push(0)) == limbs_value(s),
    decreases s.len(),
{
    reveal_with_fuel(limbs_value, 2);
    if s.len() == 0 {
        assert(s.push(0).drop_first() =~= Seq::<u64>::empty());
    } else {
        assert(s.push(0).drop_first() =~= s.drop_first().push(0));
        lemma_value_trailing_zero(s.drop_first());
    }
}

/// Limbs whose last limb is not zero have a value of at least one, and of at
/// least the radix when there are two or more of them.
pub proof fn lemma_value_lower_bound(s: Seq<u64>)
    requires
        s.len() > 0,
        s[s.len() - 1] != 0,
    ensures
        limbs_value(s) >= 1,
        s.len() >= 2 ==> limbs_value(s) >= limb_base(),
    decreases s.len(),
{
    reveal_with_fuel(limbs_value, 2);
    if s.len() >= 2 {
        let t = s.drop_first();
        assert(t[t.len() - 1] == s[s.len() - 1]);
        lemma_value_lower_bound(t);
        let vt = limbs_value(t);
        assert(s[0] as nat + limb_base() * vt >= limb_base()) by (nonlinear_arith)
            requires vt >= 1;
    } else {
        assert(s.drop_first() =~= Seq::<u64>::empty());
    }
}

impl BigNat {
    /// The number `v`.
    pub fn from_u64(v: u64) -> (res: BigNat)
        ensures
            res@ == v as nat,
    {
        let mut limbs: Vec<u64> = Vec::new();
        if v != 0 {
            limbs.push(v);
        }
        proof {
            reveal_with_fuel(limbs_value, 2);
            if v != 0 {
                assert(limbs@.drop_first() =~= Seq::<u64>::empty());
                assert(limbs_value(limbs@.drop_first()) == 0);
                assert(limbs_value(limbs@) == v as nat);
            } else {
                assert(limbs_value(limbs@) == 0);
            }
        }
        let res = BigNat { limbs };
        assert(res@ == limbs_value(res.limbs@));
        res
    }

    /// The number whose little-endian limbs are `limbs`.
    pub fn from_limbs(limbs: Vec<u64>) -> (res: BigNat)
        ensures
            res@ == limbs_value(limbs@),
    {
        let mut v = limbs;
        while v.len() > 0 && v[v.len() - 1] == 0
            invariant
                limbs_value(v@) == limbs_value(limbs@),
            decreases v.len(),
        {
            let ghost before = v@;
            v.pop();
            proof {
                assert(before =~= v@.push(0));
                lemma_value_trailing_zero(v@);
            }
        }
        BigNat { limbs: v }
    }

    /// The little-endian limbs, without a zero limb at the most significant end.
    pub fn to_limbs(&self) -> (res: Vec<u64>)
        ensures
            limbs_value(res@) == self@,
            res.len() == 0 || res[res.len() - 1] != 0,
    {
        proof {
            use_type_invariant(self);
        }
        let mut res: Vec<u64> = Vec::new();
        let mut i: usize = 0;
        while i < self.limbs.len()
            invariant
                i <= self.limbs.len(),
                res@ =~= self.limbs@.subrange(0, i as int),
            decreases self.limbs.len() - i,
        {
            res.push(self.limbs[i]);
            i = i + 1;
        }
        assert(res@ =~= self.limbs@);
        res
    }

    /// The value as a `u64`, where it fits.
    pub fn to_u64(&self) -> (res: Option<u64>)
        ensures
            res == (if self@ <= u64::MAX {
                Some(self@ as u64)
            } else {
                None::<u64>
            }),
    {
        proof {
            use_type_invariant(self);
            if self.limbs.len() > 0 {
                lemma_value_lower_bound(self.limbs@);
            }
        }
        if self.limbs.len() == 0 {
            Some(0)
        } else if self.limbs.len() == 1 {
            proof {
                reveal_with_fuel(limbs_value, 2);
                assert(self.limbs@.drop_first() =~= Seq::<u64>::empty());
            }
            Some(self.limbs[0])
        } else {
            None
        }
    }

    /// Whether the number is even.
    pub fn is_even(&self) -> (res: bool)
        ensures
            res == (self@ % 2 == 0),
    {
        if self.limbs.len() == 0 {
            true
        } else {
            proof {
                let s = self.limbs@;
                let t = limbs_value(s.drop_first());
                assert((s[0] as nat + limb_base() * t) % 2 == (s[0] as nat) % 2) by (nonlinear_arith)
                    requires limb_base() == 18446744073709551616;
            }
            self.limbs[0] % 2 == 0
        }
    }
}

/// What GMP's probable-prime test (`mpz_probab_prime_p`, behind
/// `rug::Integer::is_probably_prime`) answers for `value` with `reps` rounds:
/// `true` for "prime" or "probably prime", `false` for "composite".
pub uninterp spec fn probable_prime(value: nat, reps: u32) -> bool;

/// Calls `rug::Integer::is_probably_prime` on the number. Its contract claims
/// that the answer is a function of the number and `reps` (GMP seeds its
/// Miller-Rabin bases with a fixed state), that a prime is never called
/// composite, and that up to one million the answer is exact (GMP decides
/// such numbers by trial division). `reps` must fit an `i32`, as rug's
/// conversion to a C `int` panics otherwise.
#[verifier::external_body]
pub(crate) fn probably_prime(v: &BigNat, reps: u32) -> (res: bool)
    requires
        reps <= 2147483647,
    ensures
        res == probable_prime(v@, reps),
        is_prime(v@) ==> res,
        v@ <= 1000000 ==> (res == is_prime(v@)),
{
    match Integer::from_digits(&v.limbs, Order::Lsf).is_probably_prime(reps) {
        IsPrime::No => false,
        IsPrime::Probably => true,
        IsPrime::Yes => true,
    }
}

/// Computes `v - p` with rug's `Integer - u64`; its contract claims the exact
/// difference. The limbs come from `to_digits`, which writes no zero limb at
/// the top, as the type's invariant asks (so for the other wrappers here).
#[verifier::external_body]
pub(crate) fn sub_u64(v: &BigNat, p: u64) -> (res: BigNat)
    requires
        p <= v@,
    ensures
        res@ == v@ - p,
{
    let n = Integer::from_digits(&v.limbs, Order::Lsf);
    BigNat { limbs: Integer::from(n - p).to_digits::<u64>(Order::Lsf) }
}

/// Computes `v * f` with rug's `Integer * u64`; its contract claims the exact
/// product.
#[verifier::external_body]
pub(crate) fn mul_u64(v: &BigNat, f: u64) -> (res: BigNat)
    ensures
        res@ == v@ * f,
{
    let n = Integer::from_digits(&v.limbs, Order::Lsf);
    BigNat { limbs: Integer::from(n * f).to_digits::<u64>(Order::Lsf) }
}

/// Computes `v % m` with rug's `Integer % Integer`; its contract claims the
/// exact remainder, which is below `m` and so fits a `u64`.
#[verifier::external_body]
pub(crate) fn rem_u64(v: &BigNat, m: u64) -> (res: u64)
    requires
        m > 0,
    ensures
        res == v@ % (m as nat),
{
    let n = Integer::from_digits(&v.limbs, Order::Lsf);
    Integer::from(n % Integer::from(m)).to_u64().unwrap()
}

/// Parses a decimal numeral with `rug::Integer::parse`; its contract claims
/// the numeral's value. The numeral must be non-empty and all digits, as the
/// parse fails otherwise.
#[verifier::external_body]
pub(crate) fn parse_decimal(text: &Vec<u8>) -> (res: BigNat)
    requires
        text.len() > 0,
        all_ascii_digits(text@),
    ensures
        res@ == decimal_value(text@),
{
    let n = Integer::from(Integer::parse(text).unwrap());
    BigNat { limbs: n.to_digits::<u64>(Order::Lsf) }
}

/// The ASCII whitespace bytes that a numeral may hold anywhere: space, tab,
/// line feed, vertical tab, form feed and carriage return.
pub open spec fn is_ascii_space(c: u8) -> bool {
    c == 32 || c == 9 || c == 10 || c == 11 || c == 12 || c == 13
}

/// Reads the rest `s` of a signed decimal numeral, byte by byte, as
/// `rug::Integer::parse` does: one `+` or `-` before the first digit,
/// whitespace anywhere, `_` after the first digit. Gives whether a `-` was
/// read and the digits in order, or `None` for any other byte or for no
/// digit at all.
pub open spec fn scan_numeral(s: Seq<u8>, has_sign: bool, neg: bool, has_digits: bool) -> Option<
    (bool, Seq<u8>),
>
    decreases s.len(),
{
    if s.len() == 0 {
        if has_digits {
            Some((neg, Seq::empty()))
        } else {
            None
        }
    } else {
        let c = s[0];
        let rest = s.drop_first();
        if (c == 43 || c == 45) && !has_sign && !has_digits {
            scan_numeral(rest, true, c == 45, false)
        } else if (c == 95 && has_digits) || is_ascii_space(c) {
            scan_numeral(rest, has_sign, neg, has_digits)
        } else if 48 <= c <= 57 {
            match scan_numeral(rest, has_sign, neg, true) {
                Some((n, digits)) => Some((n, seq![c] + digits)),
                None => None,
            }
        } else {
            None
        }
    }
}

/// The sign (`true` for a `-`) and the magnitude of the numeral `text`, or
/// `None` where it is not one.
pub open spec fn parsed_numeral(text: Seq<u8>) -> Option<(bool, nat)> {
    match scan_numeral(text, false, false, false) {
        Some((neg, digits)) => Some((neg, decimal_value(digits))),
        None => None,
    }
}

/// Parses a signed decimal numeral with `rug::Integer::parse`. Its contract
/// claims what rug's parser does (see `scan_numeral`): `None` where it
/// fails, and otherwise whether the value is negative and its magnitude
/// (`-0` is zero, not negative).
#[verifier::external_body]
pub(crate) fn parse_integer(text: &Vec<u8>) -> (res: Option<(bool, BigNat)>)
    ensures
        (match parsed_numeral(text@) {
            Some((neg, v)) => res matches Some((n, m)) && n == (neg && v > 0) && m@ == v,
            None => res is None,
        }),
{
    match Integer::parse(text) {
        Ok(numeral) => {
            let v = Integer::from(numeral);
            Some((v < 0, BigNat { limbs: v.abs().to_digits::<u64>(Order::Lsf) }))
        },
        Err(_) => None,
    }
}

} // verus!
