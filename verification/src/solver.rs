//! The search for a Goldbach partition `N = p + q`.
use crate::arith::lemma_divides_trans;
use crate::bignum::{probable_prime, probably_prime, sub_u64, BigNat};
use crate::config::Config;
use crate::minimality::{complete_search, lemma_first_pass_is_least_partition, lemma_no_pass_means_no_partition};
use crate::modulo::{compute_remainders, strategy_remainder};
use crate::primes::{
    is_prime, lemma_primes_upto_seq, lemma_survivor_is_prime, lists_primes_up_to, primes_up_to,
    primes_upto_seq,
};
use crate::sieve::{double_sieve, lemma_cutoff, partner_struck, segmented_sieve, sieve_covers};
use rayon::iter::{IndexedParallelIterator, IntoParallelRefIterator};
use vstd::prelude::*;

verus! {

/// The primes that are tried one by one before any sieving: 2, then the odd
/// primes up to 73.
pub open spec fn early_primes() -> Seq<u64> {
    primes_upto_seq(73)
}

/// A number below 81 without one of the divisors 2, 3, 5 and 7 below its
/// square root is prime.
proof fn lemma_prime_by_trial(v: int)
    requires
        2 <= v < 81,
        v % 2 != 0 || v < 4,
        v % 3 != 0 || v < 9,
        v % 5 != 0 || v < 25,
        v % 7 != 0 || v < 49,
    ensures
        is_prime(v as nat),
{
    assert forall|d: int| 2 <= d < 9 && d * d <= v implies #[trigger] (v % d) != 0 by {
        if d == 4 || d == 6 || d == 8 {
            if v % d == 0 {
                lemma_divides_trans(2, d, v);
            }
        } else {
            assert(d == 2 || d == 3 || d == 5 || d == 7);
        }
    }
    lemma_survivor_is_prime(v, 9);
}

/// The primes up to 73 are primes.
pub proof fn lemma_small_primes()
    ensures
        is_prime(2),
        is_prime(3),
        is_prime(5),
        is_prime(7),
        is_prime(11),
        is_prime(13),
        is_prime(17),
        is_prime(19),
        is_prime(23),
        is_prime(29),
        is_prime(31),
        is_prime(37),
        is_prime(41),
        is_prime(43),
        is_prime(47),
        is_prime(53),
        is_prime(59),
        is_prime(61),
        is_prime(67),
        is_prime(71),
        is_prime(73),
{
    lemma_prime_by_trial(2);
    lemma_prime_by_trial(3);
    lemma_prime_by_trial(5);
    lemma_prime_by_trial(7);
    lemma_prime_by_trial(11);
    lemma_prime_by_trial(13);
    lemma_prime_by_trial(17);
    lemma_prime_by_trial(19);
    lemma_prime_by_trial(23);
    lemma_prime_by_trial(29);
    lemma_prime_by_trial(31);
    lemma_prime_by_trial(37);
    lemma_prime_by_trial(41);
    lemma_prime_by_trial(43);
    lemma_prime_by_trial(47);
    lemma_prime_by_trial(53);
    lemma_prime_by_trial(59);
    lemma_prime_by_trial(61);
    lemma_prime_by_trial(67);
    lemma_prime_by_trial(71);
    lemma_prime_by_trial(73);
}

/// Every even number from 6 to 72 is the sum of a prime `w`, at most half
/// of it, and another prime.
pub proof fn lemma_small_goldbach(n: nat) -> (w: nat)
    requires
        6 <= n <= 72,
        n % 2 == 0,
    ensures
        is_prime(w),
        w * 2 <= n,
        is_prime((n - w) as nat),
{
    lemma_small_primes();
    if n == 6 {
        3
    } else if n == 8 {
        3
    } else if n == 10 {
        3
    } else if n == 12 {
        5
    } else if n == 14 {
        3
    } else if n == 16 {
        3
    } else if n == 18 {
        5
    } else if n == 20 {
        3
    } else if n == 22 {
        3
    } else if n == 24 {
        5
    } else if n == 26 {
        3
    } else if n == 28 {
        5
    } else if n == 30 {
        7
    } else if n == 32 {
        3
    } else if n == 34 {
        3
    } else if n == 36 {
        5
    } else if n == 38 {
        7
    } else if n == 40 {
        3
    } else if n == 42 {
        5
    } else if n == 44 {
        3
    } else if n == 46 {
        3
    } else if n == 48 {
        5
    } else if n == 50 {
        3
    } else if n == 52 {
        5
    } else if n == 54 {
        7
    } else if n == 56 {
        3
    } else if n == 58 {
        5
    } else if n == 60 {
        7
    } else if n == 62 {
        3
    } else if n == 64 {
        3
    } else if n == 66 {
        5
    } else if n == 68 {
        7
    } else if n == 70 {
        3
    } else {
        5
    }
}

/// Result of a Goldbach partition search: `p + q == N`.
pub struct GoldbachResult {
    pub p: u64,
    pub q: BigNat,
    /// How many candidates `p` were tested, up to and including the one
    /// found; in the parallel stage, the candidates before it in order.
    pub attempts: u64,
    /// The length of the segment that held `p` (0 for the primes tried one by one).
    pub candidates_in_segment: usize,
    /// How many candidates survived both sieves in that segment.
    pub survivors_in_segment: usize,
}

impl Config {
    /// Settings under which the search runs without overflow and its sieve
    /// decides primality: the judging bound squared fits a `u64` and covers
    /// the first segment (the bound's documented invariant), the prime
    /// tables fit in memory, and the rounds fit a C `int`.
    pub open spec fn searchable(&self) -> bool {
        &&& self.sieve_judge_bound <= 4294967295
        &&& self.sieve_judge_bound < usize::MAX
        &&& self.sieve_screen_bound < usize::MAX
        &&& self.base_start + self.segment_init <= self.sieve_judge_bound * self.sieve_judge_bound
        &&& self.mr_rounds <= 2147483647
    }
}

/// The partner of `p` for `n`: `n - p`, or `p - n` where `p` is the larger
/// (GMP's primality test looks at the absolute value).
pub open spec fn partner(n: nat, p: nat) -> nat {
    if p <= n {
        (n - p) as nat
    } else {
        (p - n) as nat
    }
}

/// `p` passes for `n`: its partner is prime or probably prime.
pub open spec fn passes(n: nat, p: nat, reps: u32) -> bool {
    probable_prime(partner(n, p), reps)
}

/// `n` as a `u64`, where it fits.
pub open spec fn n_as_u64(n: nat) -> Option<u64> {
    if n <= u64::MAX {
        Some(n as u64)
    } else {
        None
    }
}

/// What a search for `n` fixes before its first segment.
pub struct SearchPlan {
    pub n: nat,
    /// The primes of the second sieve.
    pub screen: Seq<u64>,
    /// `n` modulo each of them, as the configured strategy computes it.
    pub rem: Seq<u64>,
    /// The square of the judging bound: where the segments end.
    pub judge_sq: nat,
    pub growth: nat,
    /// The fewest survivors a segment needs to be tested (`None`: no segment is).
    pub min_survivors: Option<usize>,
}

/// The plan of `solve(n, cfg, min_survivors)`.
pub open spec fn search_plan(n: nat, cfg: Config, min_survivors: Option<usize>) -> SearchPlan {
    let screen = primes_upto_seq(cfg.sieve_screen_bound as nat);
    SearchPlan {
        n,
        screen,
        rem: Seq::new(
            screen.len(),
            |j: int| strategy_remainder(n, screen[j], cfg.modulo_strategy) as u64,
        ),
        judge_sq: (cfg.sieve_judge_bound * cfg.sieve_judge_bound) as nat,
        growth: cfg.segment_growth as nat,
        min_survivors,
    }
}

/// `p` survives both sieves of a segment: it is prime, below `n`, and not
/// marked by the second sieve.
pub open spec fn is_survivor(plan: SearchPlan, p: nat) -> bool {
    is_prime(p) && p < plan.n && !partner_struck(plan.screen, plan.rem, n_as_u64(plan.n), p as int)
}

/// The survivors among `base, base + 1, ..., base + count - 1`, in order.
pub open spec fn survivors_in(plan: SearchPlan, base: nat, count: nat) -> Seq<u64>
    decreases count,
{
    if count == 0 {
        Seq::empty()
    } else {
        let prev = survivors_in(plan, base, (count - 1) as nat);
        let p = (base + count - 1) as nat;
        if is_survivor(plan, p) {
            prev.push(p as u64)
        } else {
            prev
        }
    }
}

/// A segment is tested when its survivors are at least the minimum.
pub open spec fn productive(plan: SearchPlan, count: nat) -> bool {
    count > 0 && (plan.min_survivors matches Some(m) && count >= m)
}

/// The candidates tested in the segment `[base, base + b)`, each with the
/// segment's length and survivor count.
pub open spec fn tested_in_segment(plan: SearchPlan, base: nat, b: nat) -> Seq<(u64, nat, nat)> {
    let s = survivors_in(plan, base, b);
    if productive(plan, s.len()) {
        s.map_values(|p: u64| (p, b, s.len()))
    } else {
        Seq::empty()
    }
}

/// The length of the segment after `[base, base + b)`: `b` times the growth,
/// but not beyond the square of the judging bound, nor beyond the largest
/// `usize`.
pub open spec fn next_segment_len(plan: SearchPlan, base: nat, b: nat) -> nat {
    let room = plan.judge_sq - (base + b);
    let len = if b * plan.growth <= room {
        b * plan.growth
    } else {
        room as nat
    };
    if len <= usize::MAX {
        len
    } else {
        usize::MAX as nat
    }
}

/// The candidates tested from the segment `[base, base + b)` on, in order.
pub open spec fn scan_segments(plan: SearchPlan, base: nat, b: nat) -> Seq<(u64, nat, nat)>
    decreases plan.judge_sq - base,
{
    if b == 0 || base + b > plan.judge_sq {
        Seq::empty()
    } else {
        tested_in_segment(plan, base, b) + scan_segments(
            plan,
            base + b,
            next_segment_len(plan, base, b),
        )
    }
}

/// The primes tried one by one, with no segment.
pub open spec fn early_scan() -> Seq<(u64, nat, nat)> {
    early_primes().map_values(|p: u64| (p, 0nat, 0nat))
}

/// Every candidate the search tries, in order: the primes tried one by one,
/// then the survivors of the tested segments.
pub open spec fn full_scan(plan: SearchPlan, base_start: nat, segment_init: nat) -> Seq<(u64, nat, nat)> {
    early_scan() + scan_segments(plan, base_start, segment_init)
}

/// The `k`-th candidate passes and none before it does.
pub open spec fn first_pass_at(scan: Seq<(u64, nat, nat)>, n: nat, reps: u32, k: int) -> bool {
    &&& 0 <= k < scan.len()
    &&& passes(n, scan[k].0 as nat, reps)
    &&& forall|j: int| 0 <= j < k ==> !passes(n, #[trigger] scan[j].0 as nat, reps)
}

/// The survivors lie in the segment, in increasing order, and survive.
pub proof fn lemma_survivors_in(plan: SearchPlan, base: nat, count: nat)
    requires
        base + count <= u64::MAX + 1,
    ensures
        survivors_in(plan, base, count).len() <= count,
        forall|j: int|
            0 <= j < survivors_in(plan, base, count).len() ==> is_survivor(
                plan,
                #[trigger] survivors_in(plan, base, count)[j] as nat,
            ) && base <= survivors_in(plan, base, count)[j] < base + count,
    decreases count,
{
    if count > 0 {
        lemma_survivors_in(plan, base, (count - 1) as nat);
    }
}

/// The primes up to the judging bound cover every segment below its square.
proof fn lemma_judge_covers(judge: Seq<u64>, bound: nat, limit: nat)
    requires
        lists_primes_up_to(judge, bound),
        limit <= bound * bound,
    ensures
        sieve_covers(judge, limit as int),
{
    assert forall|q: nat| is_prime(q) && q * q < limit implies judge.contains(q as u64) by {
        assert(q <= bound) by (nonlinear_arith)
            requires q * q < bound * bound;
    }
}

/// A pass at position `idx` of a segment's tested candidates is the first
/// pass of the whole scan, at position `done.len() + idx`.
proof fn lemma_found_in_segment(
    scan: Seq<(u64, nat, nat)>,
    done: Seq<(u64, nat, nat)>,
    tested: Seq<(u64, nat, nat)>,
    n: nat,
    reps: u32,
    idx: int,
)
    requires
        exists|rest: Seq<(u64, nat, nat)>| scan == done + (tested + rest),
        0 <= idx < tested.len(),
        passes(n, tested[idx].0 as nat, reps),
        forall|k: int| 0 <= k < done.len() ==> !passes(n, #[trigger] done[k].0 as nat, reps),
        forall|j: int| 0 <= j < idx ==> !passes(n, #[trigger] tested[j].0 as nat, reps),
    ensures
        first_pass_at(scan, n, reps, done.len() + idx),
        scan[done.len() + idx] == tested[idx],
        (forall|k: int| 0 <= k < done.len() ==> !is_prime(partner(n, #[trigger] done[k].0 as nat)))
            && (forall|j: int| 0 <= j < idx ==> !is_prime(partner(n, #[trigger] tested[j].0 as nat)))
            && is_prime(partner(n, tested[idx].0 as nat)) ==> forall|j: int|
            0 <= j <= done.len() + idx ==> passes(n, #[trigger] scan[j].0 as nat, reps) == is_prime(
                partner(n, scan[j].0 as nat),
            ),
{
    let rest = choose|rest: Seq<(u64, nat, nat)>| scan == done + (tested + rest);
    assert forall|j: int| 0 <= j < done.len() + idx implies !passes(n, #[trigger] scan[j].0 as nat, reps) by {
        if j < done.len() {
            assert(scan[j] == done[j]);
        } else {
            assert(scan[j] == tested[j - done.len()]);
        }
    }
    if (forall|k: int| 0 <= k < done.len() ==> !is_prime(partner(n, #[trigger] done[k].0 as nat)))
        && (forall|j: int| 0 <= j < idx ==> !is_prime(partner(n, #[trigger] tested[j].0 as nat)))
        && is_prime(partner(n, tested[idx].0 as nat)) {
        assert forall|j: int| 0 <= j <= done.len() + idx implies passes(n, #[trigger] scan[j].0 as nat, reps)
            == is_prime(partner(n, scan[j].0 as nat)) by {
            if j < done.len() {
                assert(scan[j] == done[j]);
            } else {
                assert(scan[j] == tested[j - done.len()]);
            }
        }
    }
}

/// A pass at position `i` of the primes up to 73, after none before it, is
/// the least prime that passes, and `i + 1` primes are at most it.
proof fn lemma_early_pass(n: nat, reps: u32, i: int)
    requires
        0 <= i < early_primes().len(),
        passes(n, early_primes()[i] as nat, reps),
        forall|j: int| 0 <= j < i ==> !passes(n, #[trigger] early_primes()[j] as nat, reps),
    ensures
        forall|p2: nat| is_prime(p2) && p2 < early_primes()[i] ==> !passes(n, p2, reps),
        primes_upto_seq(early_primes()[i] as nat).len() == i + 1,
{
    let e = early_primes();
    let p = e[i] as nat;
    lemma_primes_upto_seq(73);
    lemma_primes_upto_seq(p);
    assert forall|p2: nat| is_prime(p2) && p2 < p implies !passes(n, p2, reps) by {
        assert(e.contains(p2 as u64));
        let j = choose|j: int| 0 <= j < e.len() && e[j] == p2 as u64;
        if j >= i {
            if j > i {
                assert(e[i] < e[j]);
            }
        }
        assert(!passes(n, e[j] as nat, reps));
    }
    crate::primes::lemma_primes_upto_prefix(p, 73);
    let sp = primes_upto_seq(p);
    assert(sp.contains(p as u64));
    let w = choose|w: int| 0 <= w < sp.len() && sp[w] == p as u64;
    assert(e[w] == sp[w]);
    if w != i {
        if w < i {
            assert(e[w] < e[i]);
        } else {
            assert(e[i] < e[w]);
        }
    }
    if sp.len() > i + 1 {
        assert(sp[i + 1] <= p);
        assert(e[i + 1] == sp[i + 1]);
        assert(e[i] < e[i + 1]);
    }
}

/// The partner `|n - p|` of `p`.
fn partner_of(n: &BigNat, p: u64) -> (res: BigNat)
    ensures
        res@ == partner(n@, p as nat),
{
    match n.to_u64() {
        Some(v) => {
            if v < p {
                BigNat::from_u64(p - v)
            } else {
                sub_u64(n, p)
            }
        },
        None => sub_u64(n, p),
    }
}

/// Whether `p` passes for `n`: GMP's test calls its partner `|n - p|` prime
/// or probably prime.
fn partner_passes(n: &BigNat, p: u64, reps: u32) -> (res: bool)
    requires
        reps <= 2147483647,
    ensures
        res == passes(n@, p as nat, reps),
        partner(n@, p as nat) <= 1000000 ==> res == is_prime(partner(n@, p as nat)),
{
    let target = partner_of(n, p);
    probably_prime(&target, reps)
}

/// Searches `candidates[start..]` in parallel with rayon's `position_first`,
/// each item tested by `partner_passes`. The contract claims what rayon
/// documents of `position_first`: the position, counted from `start`, of
/// the sequentially first item that passes, or `None` where none does; of
/// each item it states what the contract of `partner_passes` says of the
/// answer given for that item.
#[verifier::external_body]
fn race_first_passing(n: &BigNat, candidates: &Vec<u64>, start: usize, reps: u32) -> (res: Option<
    usize,
>)
    requires
        start <= candidates.len(),
        reps <= 2147483647,
    ensures
        match res {
            Some(k) => start + k < candidates.len() && passes(n@, candidates[start + k] as nat, reps)
                && (partner(n@, candidates[start + k] as nat) <= 1000000 ==> is_prime(
                partner(n@, candidates[start + k] as nat),
            )) && forall|j: int|
                start <= j < start + k ==> !passes(n@, #[trigger] candidates[j] as nat, reps) && (
                partner(n@, candidates[j] as nat) <= 1000000 ==> !is_prime(
                    partner(n@, candidates[j] as nat),
                )),
            None => forall|j: int|
                start <= j < candidates.len() ==> !passes(n@, #[trigger] candidates[j] as nat, reps) && (
                partner(n@, candidates[j] as nat) <= 1000000 ==> !is_prime(
                    partner(n@, candidates[j] as nat),
                )),
        },
{
    candidates[start..].par_iter().position_first(|&p| partner_passes(n, p, reps))
}

/// Solves the Goldbach partition for an even `n >= 6`: tries `p = 2` and the
/// odd primes up to 73 one by one, then sieves segments of candidates from
/// `cfg.base_start` on and tests the survivors of each productive segment,
/// the first `cfg.serial_head` one by one and the rest in parallel. A
/// segment is productive when it has survivors and at least `min_survivors`
/// of them (`None`: never). The result is the first candidate whose partner
/// `n - p` passes GMP's probable-prime test. Up to one million, where that
/// test is exact, a complete search that tests every segment with a
/// survivor finds the least prime `p` with `n - p` prime, and finds nothing
/// only where no prime below the judging bound's square has a prime partner.
pub fn solve(n: &BigNat, cfg: &Config, min_survivors: Option<usize>) -> (res: Option<GoldbachResult>)
    requires
        n@ >= 6,
        n@ % 2 == 0,
        cfg.searchable(),
    ensures
        ({
            let scan = full_scan(
                search_plan(n@, *cfg, min_survivors),
                cfg.base_start as nat,
                cfg.segment_init as nat,
            );
            match res {
                Some(r) => {
                    &&& r.attempts >= 1
                    &&& first_pass_at(scan, n@, cfg.mr_rounds, r.attempts - 1)
                    &&& scan[r.attempts - 1] == (
                        r.p,
                        r.candidates_in_segment as nat,
                        r.survivors_in_segment as nat,
                    )
                    &&& is_prime(r.p as nat)
                    &&& r.p + r.q@ == n@
                    &&& probable_prime(r.q@, cfg.mr_rounds)
                },
                None => forall|k: int|
                    0 <= k < scan.len() ==> !passes(n@, #[trigger] scan[k].0 as nat, cfg.mr_rounds),
            }
        }),
        res matches Some(r) ==> (r.q@ <= 1000000 ==> is_prime(r.q@)),
        res matches Some(r) ==> passes(n@, r.p as nat, cfg.mr_rounds),
        forall|p: nat|
            #[trigger] is_prime(p) && p <= 73 && passes(n@, p, cfg.mr_rounds) ==> (res matches Some(r)
                && r.p <= p && r.attempts == primes_upto_seq(r.p as nat).len()
                && r.candidates_in_segment == 0 && forall|p2: nat|
                is_prime(p2) && p2 < r.p ==> !passes(n@, p2, cfg.mr_rounds)),
        n@ <= 1000000 && min_survivors == Some(1usize) && complete_search(n@, *cfg) ==> match res {
            Some(r) => is_prime(r.q@) && forall|p2: nat|
                #[trigger] is_prime(p2) && p2 < r.p ==> !is_prime((n@ - p2) as nat),
            None => forall|p: nat|
                #[trigger] is_prime(p) && p <= n@ && p < cfg.sieve_judge_bound * cfg.sieve_judge_bound
                    ==> !is_prime((n@ - p) as nat),
        },
{
    let reps = cfg.mr_rounds;
    let ghost plan = search_plan(n@, *cfg, min_survivors);
    let ghost scan = full_scan(plan, cfg.base_start as nat, cfg.segment_init as nat);
    proof {
        lemma_primes_upto_seq(73);
        crate::primes::lemma_primes_upto_seq_len(73);
    }
    // The primes up to 73, one by one.
    let early = primes_up_to(73);
    let mut attempts: u64 = 0;
    let mut i: usize = 0;
    while i < early.len()
        invariant
            i <= early.len(),
            early@ == early_primes(),
            plan == search_plan(n@, *cfg, min_survivors),
            scan == full_scan(plan, cfg.base_start as nat, cfg.segment_init as nat),
            attempts == i,
            n@ >= 6,
            n@ % 2 == 0,
            reps == cfg.mr_rounds,
            reps <= 2147483647,
            lists_primes_up_to(early_primes(), 73),
            forall|j: int|
                0 <= j < i ==> !passes(n@, #[trigger] early_primes()[j] as nat, reps) && (partner(
                    n@,
                    early_primes()[j] as nat,
                ) <= 1000000 ==> !is_prime(partner(n@, early_primes()[j] as nat))),
        decreases early.len() - i,
    {
        let p = early[i];
        attempts = attempts + 1;
        let target = partner_of(n, p);
        if probably_prime(&target, reps) {
            proof {
                if p > n@ {
                    let w = lemma_small_goldbach(n@);
                    let e = early_primes();
                    assert(e.contains(w as u64));
                    let jw = choose|jw: int| 0 <= jw < e.len() && e[jw] == w as u64;
                    if jw > i {
                        assert(e[i as int] < e[jw]);
                    }
                    assert(jw < i);
                    assert(partner(n@, e[jw] as nat) == (n@ - w) as nat);
                }
                assert(early_scan().len() == early_primes().len());
                assert(early_scan()[i as int] == (p, 0nat, 0nat));
                assert forall|j: int| 0 <= j < i implies !passes(n@, #[trigger] scan[j].0 as nat, reps) by {
                    assert(scan[j] == early_scan()[j]);
                }
                assert(scan[i as int] == early_scan()[i as int]);
                lemma_early_pass(n@, reps, i as int);
                if n@ <= 1000000 && min_survivors == Some(1usize) && complete_search(n@, *cfg) {
                    assert forall|j: int| 0 <= j <= i implies passes(n@, #[trigger] scan[j].0 as nat, reps)
                        == is_prime(partner(n@, scan[j].0 as nat)) by {
                        assert(scan[j] == early_scan()[j]);
                        assert(early_primes()[j] <= 73);
                    }
                    lemma_first_pass_is_least_partition(n@, *cfg, i as int);
                }
            }
            return Some(
                GoldbachResult {
                    p,
                    q: target,
                    attempts,
                    candidates_in_segment: 0,
                    survivors_in_segment: 0,
                },
            );
        }
        i = i + 1;
    }
    let ghost mut done: Seq<(u64, nat, nat)> = early_scan();
    proof {
        assert forall|p: nat| is_prime(p) && p <= 73 implies !passes(n@, p, reps) by {
            let e = early_primes();
            assert(e.contains(p as u64));
            let j = choose|j: int| 0 <= j < e.len() && e[j] == p as u64;
            assert(!passes(n@, e[j] as nat, reps));
        }
        assert forall|k: int| 0 <= k < done.len() implies !passes(n@, #[trigger] done[k].0 as nat, reps) && (
        n@ <= 1000000 ==> !is_prime(partner(n@, done[k].0 as nat))) by {
            assert(done[k].0 == early_primes()[k]);
            assert(early_primes()[k] <= 73);
        }
        lemma_primes_upto_seq(cfg.sieve_judge_bound as nat);
    }
    // The sieve phase.
    let judge_primes = primes_up_to(cfg.sieve_judge_bound);
    let screen_primes = primes_up_to(cfg.sieve_screen_bound);
    let rem = compute_remainders(n, screen_primes.as_slice(), &cfg.modulo_strategy);
    proof {
        assert(rem@ =~= plan.rem);
    }
    let n_u64 = n.to_u64();
    proof {
        assert(cfg.sieve_judge_bound * cfg.sieve_judge_bound <= 18446744065119617025) by (nonlinear_arith)
            requires cfg.sieve_judge_bound <= 4294967295;
        assert forall|j: int| 0 <= j < judge_primes@.len() implies #[trigger] judge_primes@[j] > 0 by {
            assert(is_prime(judge_primes@[j] as nat));
        }
        assert forall|j: int| 0 <= j < screen_primes@.len() implies #[trigger] screen_primes@[j] > 0 by {
            assert(is_prime(screen_primes@[j] as nat));
        }
    }
    let judge_sq: u64 = cfg.sieve_judge_bound * cfg.sieve_judge_bound;
    let mut base: u64 = cfg.base_start;
    let mut b: usize = cfg.segment_init;
    loop
        invariant
            reps == cfg.mr_rounds,
            reps <= 2147483647,
            cfg.searchable(),
            plan == search_plan(n@, *cfg, min_survivors),
            scan == full_scan(plan, cfg.base_start as nat, cfg.segment_init as nat),
            judge_primes@ == primes_upto_seq(cfg.sieve_judge_bound as nat),
            lists_primes_up_to(judge_primes@, cfg.sieve_judge_bound as nat),
            screen_primes@ == plan.screen,
            lists_primes_up_to(screen_primes@, cfg.sieve_screen_bound as nat),
            rem@ == plan.rem,
            n_u64 == n_as_u64(n@),
            judge_sq == plan.judge_sq,
            judge_sq <= 18446744065119617025,
            forall|j: int| 0 <= j < judge_primes@.len() ==> #[trigger] judge_primes@[j] > 0,
            forall|j: int| 0 <= j < screen_primes@.len() ==> #[trigger] screen_primes@[j] > 0,
            base + b <= judge_sq,
            base >= cfg.base_start,
            scan == done + scan_segments(plan, base as nat, b as nat),
            attempts == done.len(),
            done.len() <= 73 + base - cfg.base_start,
            forall|k: int|
                0 <= k < done.len() ==> !passes(n@, #[trigger] done[k].0 as nat, reps) && (n@ <= 1000000
                    ==> !is_prime(partner(n@, done[k].0 as nat))),
            forall|p: nat| #[trigger] is_prime(p) && p <= 73 ==> !passes(n@, p, reps),
        decreases judge_sq - base,
    {
        let ghost old_done = done;
        let judge_slice = judge_primes.as_slice();
        let screen_slice = screen_primes.as_slice();
        let rem_slice = rem.as_slice();
        assert(judge_slice@ == judge_primes@ && screen_slice@ == screen_primes@ && rem_slice@ == rem@);
        assert forall|j: int| 0 <= j < judge_slice@.len() implies #[trigger] judge_slice@[j] > 0 by {
            assert(judge_primes@[j] > 0);
        }
        assert forall|j: int| 0 <= j < screen_slice@.len() implies #[trigger] screen_slice@[j] > 0 by {
            assert(screen_primes@[j] > 0);
        }
        proof {
            lemma_cutoff(judge_slice@, base + b, 0);
        }
        let is_p_prime = segmented_sieve(base, b, judge_slice);
        let nmp_comp = double_sieve(base, b, screen_slice, rem_slice, n_u64);
        proof {
            lemma_judge_covers(judge_primes@, cfg.sieve_judge_bound as nat, (base + b) as nat);
        }
        let mut survivors: Vec<u64> = Vec::new();
        let mut t: usize = 0;
        while t < b
            invariant
                t <= b,
                base + b <= judge_sq,
                is_p_prime.len() == b,
                nmp_comp.len() == b,
                n_u64 == n_as_u64(n@),
                plan == search_plan(n@, *cfg, min_survivors),
                forall|x: int| 0 <= x < b ==> (is_p_prime[x] == 1) == is_prime((base + x) as nat),
                forall|x: int|
                    0 <= x < b ==> (nmp_comp[x] == 1) == partner_struck(
                        plan.screen,
                        plan.rem,
                        n_u64,
                        base + x,
                    ) && (nmp_comp[x] == 0 || nmp_comp[x] == 1),
                survivors@ == survivors_in(plan, base as nat, t as nat),
            decreases b - t,
        {
            let p = base + t as u64;
            let below_n = match n_u64 {
                Some(v) => p < v,
                None => true,
            };
            proof {
                assert((is_p_prime[t as int] == 1) == is_prime(p as nat));
                assert((nmp_comp[t as int] == 0) == !partner_struck(plan.screen, plan.rem, n_as_u64(plan.n), p as int));
                assert(below_n == (p < n@));
                assert(is_survivor(plan, p as nat) == (is_p_prime[t as int] == 1 && nmp_comp[t as int]
                    == 0 && below_n));
            }
            if is_p_prime[t] == 1 && nmp_comp[t] == 0 && below_n {
                survivors.push(p);
            }
            t = t + 1;
        }
        proof {
            lemma_survivors_in(plan, base as nat, b as nat);
        }
        let count = survivors.len();
        let productive_here = count > 0 && match min_survivors {
            Some(m) => count >= m,
            None => false,
        };
        let ghost tested = tested_in_segment(plan, base as nat, b as nat);
        let ghost rest = scan_segments(
            plan,
            (base + b) as nat,
            next_segment_len(plan, base as nat, b as nat),
        );
        proof {
            if b > 0 {
                assert(scan_segments(plan, base as nat, b as nat) == tested + rest);
                assert(scan == done + (tested + rest));
            }
        }
        if productive_here {
            assert(tested == survivors@.map_values(|p: u64| (p, b as nat, count as nat)));
            let serial_count = if count < cfg.serial_head {
                count
            } else {
                cfg.serial_head
            };
            let mut idx: usize = 0;
            while idx < serial_count
                invariant
                    idx <= serial_count <= count,
                    count > 0,
                    plan == search_plan(n@, *cfg, min_survivors),
                    scan == done + (tested + rest),
                    scan == full_scan(plan, cfg.base_start as nat, cfg.segment_init as nat),
                    count == survivors.len(),
                    count <= b,
                    judge_sq <= 18446744065119617025,
                    survivors@ == survivors_in(plan, base as nat, b as nat),
                    tested == survivors@.map_values(|p: u64| (p, b as nat, count as nat)),
                    attempts == done.len() + idx,
                    done.len() <= 73 + base - cfg.base_start,
                    forall|k: int|
                        0 <= k < done.len() ==> !passes(n@, #[trigger] done[k].0 as nat, reps) && (n@
                            <= 1000000 ==> !is_prime(partner(n@, done[k].0 as nat))),
                    forall|p: nat| #[trigger] is_prime(p) && p <= 73 ==> !passes(n@, p, reps),
                    base + b <= judge_sq,
                    reps == cfg.mr_rounds,
                    reps <= 2147483647,
                    forall|j: int| 0 <= j < survivors.len() ==> is_survivor(plan, #[trigger] survivors@[j] as nat),
                    forall|j: int|
                        0 <= j < idx ==> !passes(n@, #[trigger] survivors@[j] as nat, reps) && (n@ <= 1000000
                            ==> !is_prime(partner(n@, survivors@[j] as nat))),
                decreases serial_count - idx,
            {
                let p = survivors[idx];
                assert(is_survivor(plan, survivors@[idx as int] as nat));
                attempts = attempts + 1;
                let target = sub_u64(n, p);
                proof {
                    assert(partner(n@, p as nat) == target@);
                }
                let q_passes = probably_prime(&target, reps);
                if q_passes && probably_prime(&BigNat::from_u64(p), reps) {
                    proof {
                        lemma_found_in_segment(scan, done, tested, n@, reps, idx as int);
                        if n@ <= 1000000 && min_survivors == Some(1usize) && complete_search(n@, *cfg) {
                            assert forall|j: int| 0 <= j < idx implies !is_prime(
                                partner(n@, #[trigger] tested[j].0 as nat),
                            ) by {
                                assert(tested[j].0 == survivors@[j]);
                            }
                            assert(tested[idx as int].0 == p);
                            lemma_first_pass_is_least_partition(n@, *cfg, done.len() + idx);
                        }
                    }
                    return Some(
                        GoldbachResult {
                            p,
                            q: target,
                            attempts,
                            candidates_in_segment: b,
                            survivors_in_segment: count,
                        },
                    );
                }
                idx = idx + 1;
            }
            if count > serial_count {
                match race_first_passing(n, &survivors, serial_count, reps) {
                    Some(k) => {
                        let at = serial_count + k;
                        attempts = attempts + k as u64 + 1;
                        let p = survivors[at];
                        let q = sub_u64(n, p);
                        proof {
                            lemma_found_in_segment(scan, done, tested, n@, reps, at as int);
                            if n@ <= 1000000 && min_survivors == Some(1usize) && complete_search(n@, *cfg) {
                                assert forall|j: int| 0 <= j < at implies !is_prime(
                                    partner(n@, #[trigger] tested[j].0 as nat),
                                ) by {
                                    assert(tested[j].0 == survivors@[j]);
                                    assert(is_survivor(plan, survivors@[j] as nat));
                                }
                                assert(tested[at as int].0 == p);
                                assert(is_survivor(plan, p as nat));
                                lemma_first_pass_is_least_partition(n@, *cfg, done.len() + at);
                            }
                        }
                        return Some(
                            GoldbachResult {
                                p,
                                q,
                                attempts,
                                candidates_in_segment: b,
                                survivors_in_segment: count,
                            },
                        );
                    },
                    None => {
                        attempts = attempts + (count - serial_count) as u64;
                    },
                }
            }
            proof {
                assert forall|k: int| 0 <= k < (done + tested).len() implies !passes(
                    n@,
                    #[trigger] (done + tested)[k].0 as nat,
                    reps,
                ) && (n@ <= 1000000 ==> !is_prime(partner(n@, (done + tested)[k].0 as nat))) by {
                    if k >= done.len() {
                        assert((done + tested)[k].0 == survivors@[k - done.len()]);
                        assert(is_survivor(plan, survivors@[k - done.len()] as nat));
                    }
                }
                done = done + tested;
            }
        }
        let next_base: u64 = base + b as u64;
        assert((b as u128) * (cfg.segment_growth as u128) <= u128::MAX) by (nonlinear_arith)
            requires b <= usize::MAX, cfg.segment_growth <= usize::MAX, usize::MAX <= u64::MAX;
        let grown: u128 = b as u128 * cfg.segment_growth as u128;
        let room: u64 = judge_sq - next_base;
        let len: u128 = if grown <= room as u128 {
            grown
        } else {
            room as u128
        };
        let next_b: usize = if len <= usize::MAX as u128 {
            len as usize
        } else {
            usize::MAX
        };
        proof {
            if b == 0 {
                assert(next_b == 0);
            }
            assert(next_b as nat == next_segment_len(plan, base as nat, b as nat));
            assert((old_done + tested) + scan_segments(plan, next_base as nat, next_b as nat)
                =~= old_done + (tested + scan_segments(plan, next_base as nat, next_b as nat)));
        }
        base = next_base;
        b = next_b;
        if b == 0 {
            proof {
                assert(scan =~= done);
                if n@ <= 1000000 && min_survivors == Some(1usize) && complete_search(n@, *cfg) {
                    assert forall|k: int| 0 <= k < scan.len() implies !passes(n@, #[trigger] scan[k].0 as nat, reps)
                        && passes(n@, scan[k].0 as nat, reps) == is_prime(partner(n@, scan[k].0 as nat)) by {
                        assert(scan[k] == done[k]);
                    }
                    lemma_no_pass_means_no_partition(n@, *cfg);
                }
            }
            return None;
        }
    }
}

} // verus!
