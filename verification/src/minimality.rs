//! What the search promises when GMP's test is exact: the `p` it returns is
//! the least prime with a prime partner, and where it returns nothing there
//! is no such prime below the square of the judging bound.
use crate::arith::lemma_same_residue;
use crate::config::Config;
use crate::modulo::strategy_remainder;
use crate::primes::{is_prime, lemma_primes_upto_seq, lists_primes_up_to, primes_upto_seq};
use crate::sieve::{partner_struck, partner_struck_by};
use crate::solver::{
    early_primes, early_scan, first_pass_at, full_scan, is_survivor, lemma_small_goldbach, n_as_u64,
    next_segment_len, partner, passes, productive, scan_segments, search_plan, survivors_in,
    tested_in_segment, SearchPlan,
};
use vstd::prelude::*;

verus! {

/// The survivors of a segment are increasing, lie in it, and include every
/// survivor of it.
proof fn lemma_survivors_in_order(plan: SearchPlan, base: nat, count: nat)
    requires
        base + count <= u64::MAX + 1,
    ensures
        forall|i: int, j: int|
            0 <= i < j < survivors_in(plan, base, count).len() ==> survivors_in(plan, base, count)[i]
                < survivors_in(plan, base, count)[j],
        forall|i: int|
            0 <= i < survivors_in(plan, base, count).len() ==> base <= #[trigger] survivors_in(
                plan,
                base,
                count,
            )[i] < base + count,
        forall|p: nat|
            base <= p < base + count && is_survivor(plan, p) ==> survivors_in(
                plan,
                base,
                count,
            ).contains(p as u64),
    decreases count,
{
    if count > 0 {
        let prev = survivors_in(plan, base, (count - 1) as nat);
        lemma_survivors_in_order(plan, base, (count - 1) as nat);
        let cur = survivors_in(plan, base, count);
        assert forall|p: nat| base <= p < base + count && is_survivor(plan, p) implies cur.contains(
            p as u64,
        ) by {
            if p < base + count - 1 {
                let w = choose|w: int| 0 <= w < prev.len() && prev[w] == p as u64;
                assert(cur[w] == p as u64);
            } else {
                assert(cur[cur.len() - 1] == p as u64);
            }
        }
    }
}

/// From a segment of length at least 1 on, the tested candidates are
/// increasing, lie between the segment's start and the end of the segments,
/// and include every survivor in that range, when every segment with a
/// survivor is tested and the segments grow.
proof fn lemma_scan_segments_order(plan: SearchPlan, base: nat, b: nat)
    requires
        plan.judge_sq <= u64::MAX,
        base + b <= plan.judge_sq,
        plan.growth >= 1,
        plan.min_survivors == Some(1usize),
    ensures
        forall|i: int, j: int|
            0 <= i < j < scan_segments(plan, base, b).len() ==> scan_segments(plan, base, b)[i].0
                < scan_segments(plan, base, b)[j].0,
        forall|i: int|
            0 <= i < scan_segments(plan, base, b).len() ==> base <= #[trigger] scan_segments(
                plan,
                base,
                b,
            )[i].0 < plan.judge_sq,
        b >= 1 ==> forall|p: nat|
            base <= p < plan.judge_sq && is_survivor(plan, p) ==> exists|idx: int|
                0 <= idx < scan_segments(plan, base, b).len() && #[trigger] scan_segments(
                    plan,
                    base,
                    b,
                )[idx].0 == p as u64,
    decreases plan.judge_sq - base,
{
    if b == 0 || base + b > plan.judge_sq {
        return;
    }
    let segs = scan_segments(plan, base, b);
    let s = survivors_in(plan, base, b);
    let tested = tested_in_segment(plan, base, b);
    let nb = next_segment_len(plan, base, b);
    let rest = scan_segments(plan, base + b, nb);
    assert(segs == tested + rest);
    lemma_survivors_in_order(plan, base, b);
    lemma_scan_segments_order(plan, base + b, nb);
    if productive(plan, s.len()) {
        assert(tested == s.map_values(|p: u64| (p, b, s.len())));
    } else {
        assert(tested.len() == 0);
    }
    assert forall|i: int| 0 <= i < tested.len() implies base <= #[trigger] tested[i].0 < base + b by {
        assert(tested[i].0 == s[i]);
    }
    assert forall|i: int, j: int| 0 <= i < j < segs.len() implies segs[i].0 < segs[j].0 by {
        if j < tested.len() {
            assert(tested[i].0 == s[i] && tested[j].0 == s[j]);
        } else if i < tested.len() {
            assert(segs[i] == tested[i]);
            assert(segs[j] == rest[j - tested.len()]);
        } else {
            assert(segs[i] == rest[i - tested.len()]);
            assert(segs[j] == rest[j - tested.len()]);
        }
    }
    assert forall|i: int| 0 <= i < segs.len() implies base <= #[trigger] segs[i].0 < plan.judge_sq by {
        if i < tested.len() {
            assert(segs[i] == tested[i]);
        } else {
            assert(segs[i] == rest[i - tested.len()]);
        }
    }
    assert forall|p: nat| base <= p < plan.judge_sq && is_survivor(plan, p) implies exists|idx: int|
        0 <= idx < segs.len() && #[trigger] segs[idx].0 == p as u64 by {
        if p < base + b {
            assert(s.contains(p as u64));
            let w = choose|w: int| 0 <= w < s.len() && s[w] == p as u64;
            assert(productive(plan, s.len()));
            assert(tested[w].0 == p as u64);
            assert(segs[w] == tested[w]);
        } else {
            assert(b * plan.growth >= 1) by (nonlinear_arith)
                requires b >= 1, plan.growth >= 1;
            assert(nb >= 1);
            let idx = choose|idx: int| 0 <= idx < rest.len() && #[trigger] rest[idx].0 == p as u64;
            assert(segs[tested.len() + idx] == rest[idx]);
        }
    }
}

/// The conditions under which the search is complete: the remainders are
/// those of `n`, the search starts right after the primes tried one by one,
/// every segment with a survivor is tested, the segments grow, and (for `n`
/// beyond `u64`) no partner below the judging bound's square is itself a
/// screening prime.
pub open spec fn complete_search(n: nat, cfg: Config) -> bool {
    &&& n >= 6
    &&& n % 2 == 0
    &&& cfg.searchable()
    &&& 74 <= cfg.base_start <= 79
    &&& cfg.segment_init >= 1
    &&& cfg.segment_growth >= 1
    &&& forall|r: u64|
        is_prime(r as nat) && r <= cfg.sieve_screen_bound ==> #[trigger] strategy_remainder(
            n,
            r,
            cfg.modulo_strategy,
        ) == n % (r as nat)
    &&& (n <= u64::MAX || cfg.sieve_screen_bound + cfg.sieve_judge_bound * cfg.sieve_judge_bound <= n)
}

/// Every prime below the judging bound's square with a prime partner is
/// tried, and the candidates are tried in increasing order.
proof fn lemma_scan_complete(n: nat, cfg: Config)
    requires
        complete_search(n, cfg),
    ensures
        ({
            let scan = full_scan(
                search_plan(n, cfg, Some(1usize)),
                cfg.base_start as nat,
                cfg.segment_init as nat,
            );
            &&& forall|i: int, j: int| 0 <= i < j < scan.len() ==> scan[i].0 < scan[j].0
            &&& forall|p: nat|
                #[trigger] is_prime(p) && p < n && is_prime((n - p) as nat) && p < cfg.sieve_judge_bound
                    * cfg.sieve_judge_bound ==> exists|idx: int|
                    0 <= idx < scan.len() && #[trigger] scan[idx].0 == p as u64
        }),
{
    let plan = search_plan(n, cfg, Some(1usize));
    let scan = full_scan(plan, cfg.base_start as nat, cfg.segment_init as nat);
    let early = early_scan();
    let segs = scan_segments(plan, cfg.base_start as nat, cfg.segment_init as nat);
    lemma_primes_upto_seq(73);
    lemma_primes_upto_seq(cfg.sieve_screen_bound as nat);
    assert(cfg.sieve_judge_bound * cfg.sieve_judge_bound <= 18446744065119617025) by (nonlinear_arith)
        requires cfg.sieve_judge_bound <= 4294967295;
    lemma_scan_segments_order(plan, cfg.base_start as nat, cfg.segment_init as nat);
    assert(scan == early + segs);
    assert forall|i: int| 0 <= i < early.len() implies #[trigger] early[i].0 <= 73 by {
        assert(early[i].0 == early_primes()[i]);
    }
    assert forall|i: int, j: int| 0 <= i < j < scan.len() implies scan[i].0 < scan[j].0 by {
        if j < early.len() {
            assert(early[i].0 == early_primes()[i] && early[j].0 == early_primes()[j]);
        } else if i < early.len() {
            assert(scan[i] == early[i]);
            assert(scan[j] == segs[j - early.len()]);
        } else {
            assert(scan[i] == segs[i - early.len()]);
            assert(scan[j] == segs[j - early.len()]);
        }
    }
    assert forall|p: nat|
        #[trigger] is_prime(p) && p < n && is_prime((n - p) as nat) && p < cfg.sieve_judge_bound
            * cfg.sieve_judge_bound implies exists|idx: int|
        0 <= idx < scan.len() && #[trigger] scan[idx].0 == p as u64 by {
        if p <= 73 {
            assert(early_primes().contains(p as u64));
            let w = choose|w: int| 0 <= w < early_primes().len() && early_primes()[w] == p as u64;
            assert(early[w].0 == p as u64);
            assert(scan[w] == early[w]);
        } else {
            assert(p >= 79) by {
                if p < 79 {
                    assert(p == 74 || p == 75 || p == 76 || p == 77 || p == 78);
                    if p == 74 || p == 76 || p == 78 {
                        assert(p % 2 == 0);
                    } else if p == 75 {
                        assert(p % 3 == 0);
                    } else {
                        assert(p % 7 == 0);
                    }
                }
            }
            lemma_partner_not_struck(n, cfg, p);
            let idx = choose|idx: int| 0 <= idx < segs.len() && #[trigger] segs[idx].0 == p as u64;
            assert(scan[early.len() + idx] == segs[idx]);
        }
    }
}

/// A prime `p` whose partner `n - p` is prime is not marked by the second
/// sieve, and so survives.
proof fn lemma_partner_not_struck(n: nat, cfg: Config, p: nat)
    requires
        complete_search(n, cfg),
        is_prime(p),
        p < n,
        is_prime((n - p) as nat),
        p < cfg.sieve_judge_bound * cfg.sieve_judge_bound,
    ensures
        is_survivor(search_plan(n, cfg, Some(1usize)), p),
{
    let plan = search_plan(n, cfg, Some(1usize));
    let screen = plan.screen;
    lemma_primes_upto_seq(cfg.sieve_screen_bound as nat);
    if partner_struck(plan.screen, plan.rem, n_as_u64(n), p as int) {
        let j = choose|j: int|
            0 <= j < screen.len() && #[trigger] (p as int % (screen[j] as int)) == (plan.rem[j]
                % screen[j]) as int && !(n_as_u64(n) matches Some(v) && p + screen[j] == v);
        let r = screen[j];
        assert(is_prime(r as nat) && r <= cfg.sieve_screen_bound);
        assert(plan.rem[j] == (strategy_remainder(n, r, cfg.modulo_strategy)) as u64);
        assert(plan.rem[j] == n % (r as nat));
        vstd::arithmetic::div_mod::lemma_mod_twice(n as int, r as int);
        lemma_same_residue(n as int, p as int, r as int);
        let m = (n - p) as nat;
        assert(m % (r as nat) == 0);
        assert(m != r);
        assert(2 <= r < m) by {
            if m < r {
                vstd::arithmetic::div_mod::lemma_small_mod(m, r as nat);
            }
        }
        assert(m % (r as nat) != 0);
    }
}

/// Law: when the search is complete and GMP's test answers exactly on the
/// partners of the candidates up to the first that passes, that candidate is
/// the least prime `p` for which `n - p` is prime too.
pub proof fn lemma_first_pass_is_least_partition(n: nat, cfg: Config, k: int)
    requires
        complete_search(n, cfg),
        first_pass_at(
            full_scan(search_plan(n, cfg, Some(1usize)), cfg.base_start as nat, cfg.segment_init as nat),
            n,
            cfg.mr_rounds,
            k,
        ),
        forall|j: int|
            0 <= j <= k ==> passes(
                n,
                #[trigger] full_scan(
                    search_plan(n, cfg, Some(1usize)),
                    cfg.base_start as nat,
                    cfg.segment_init as nat,
                )[j].0 as nat,
                cfg.mr_rounds,
            ) == is_prime(
                partner(
                    n,
                    full_scan(
                        search_plan(n, cfg, Some(1usize)),
                        cfg.base_start as nat,
                        cfg.segment_init as nat,
                    )[j].0 as nat,
                ),
            ),
    ensures
        ({
            let scan = full_scan(
                search_plan(n, cfg, Some(1usize)),
                cfg.base_start as nat,
                cfg.segment_init as nat,
            );
            let p = scan[k].0 as nat;
            &&& is_prime(p)
            &&& p <= n
            &&& is_prime((n - p) as nat)
            &&& forall|p2: nat| #[trigger] is_prime(p2) && p2 < p ==> !is_prime((n - p2) as nat)
        }),
{
    let plan = search_plan(n, cfg, Some(1usize));
    let scan = full_scan(plan, cfg.base_start as nat, cfg.segment_init as nat);
    let reps = cfg.mr_rounds;
    let p = scan[k].0 as nat;
    lemma_scan_complete(n, cfg);
    lemma_scan_values(n, cfg);
    if p > n {
        // Only the primes tried one by one can exceed `n`, so `n <= 72`.
        let w = lemma_small_goldbach(n);
        assert(w < n);
        let idx = choose|idx: int| 0 <= idx < scan.len() && #[trigger] scan[idx].0 == w as u64;
        if idx >= k {
            if idx > k {
                assert(scan[k].0 < scan[idx].0);
            }
        }
        assert(!passes(n, scan[idx].0 as nat, reps));
        assert(partner(n, w) == (n - w) as nat);
    }
    assert(partner(n, p) == (n - p) as nat);
    assert forall|p2: nat| #[trigger] is_prime(p2) && p2 < p implies !is_prime((n - p2) as nat) by {
        if is_prime((n - p2) as nat) {
            assert(p2 < n);
            let idx = choose|idx: int| 0 <= idx < scan.len() && #[trigger] scan[idx].0 == p2 as u64;
            if idx >= k {
                if idx > k {
                    assert(scan[k].0 < scan[idx].0);
                }
            }
            assert(!passes(n, scan[idx].0 as nat, reps));
            assert(partner(n, p2) == (n - p2) as nat);
        }
    }
}

/// The candidates are primes below the square of the judging bound, and
/// those from segments are below `n`.
proof fn lemma_scan_values(n: nat, cfg: Config)
    requires
        complete_search(n, cfg),
    ensures
        ({
            let scan = full_scan(
                search_plan(n, cfg, Some(1usize)),
                cfg.base_start as nat,
                cfg.segment_init as nat,
            );
            forall|i: int|
                0 <= i < scan.len() ==> is_prime(#[trigger] scan[i].0 as nat) && scan[i].0
                    < cfg.sieve_judge_bound * cfg.sieve_judge_bound && (scan[i].0 > 73 ==> scan[i].0
                    < n)
        }),
{
    let plan = search_plan(n, cfg, Some(1usize));
    let scan = full_scan(plan, cfg.base_start as nat, cfg.segment_init as nat);
    let early = early_scan();
    let segs = scan_segments(plan, cfg.base_start as nat, cfg.segment_init as nat);
    lemma_primes_upto_seq(73);
    assert(cfg.sieve_judge_bound * cfg.sieve_judge_bound <= 18446744065119617025) by (nonlinear_arith)
        requires cfg.sieve_judge_bound <= 4294967295;
    lemma_scan_segments_order(plan, cfg.base_start as nat, cfg.segment_init as nat);
    lemma_scan_segments_survive(plan, cfg.base_start as nat, cfg.segment_init as nat);
    assert(scan == early + segs);
    assert forall|i: int| 0 <= i < scan.len() implies is_prime(#[trigger] scan[i].0 as nat)
        && scan[i].0 < cfg.sieve_judge_bound * cfg.sieve_judge_bound && (scan[i].0 > 73
        ==> scan[i].0 < n) by {
        if i < early.len() {
            assert(scan[i] == early[i]);
            assert(early[i].0 == early_primes()[i]);
        } else {
            assert(scan[i] == segs[i - early.len()]);
        }
    }
}

/// Every candidate tested in the segments survives.
proof fn lemma_scan_segments_survive(plan: SearchPlan, base: nat, b: nat)
    requires
        plan.judge_sq <= u64::MAX,
        base + b <= plan.judge_sq,
    ensures
        forall|i: int|
            0 <= i < scan_segments(plan, base, b).len() ==> is_survivor(
                plan,
                #[trigger] scan_segments(plan, base, b)[i].0 as nat,
            ),
    decreases plan.judge_sq - base,
{
    if b == 0 || base + b > plan.judge_sq {
        return;
    }
    let segs = scan_segments(plan, base, b);
    let s = survivors_in(plan, base, b);
    let tested = tested_in_segment(plan, base, b);
    let nb = next_segment_len(plan, base, b);
    let rest = scan_segments(plan, base + b, nb);
    assert(segs == tested + rest);
    crate::solver::lemma_survivors_in(plan, base, b);
    lemma_scan_segments_survive(plan, base + b, nb);
    assert forall|i: int| 0 <= i < segs.len() implies is_survivor(plan, #[trigger] segs[i].0 as nat) by {
        if i < tested.len() {
            assert(segs[i] == tested[i]);
            assert(tested[i].0 == s[i]);
        } else {
            assert(segs[i] == rest[i - tested.len()]);
        }
    }
}

/// Law: when the search is complete, no candidate passes, and GMP's test
/// answers exactly on the candidates' partners, then no prime below the
/// square of the judging bound has a prime partner.
pub proof fn lemma_no_pass_means_no_partition(n: nat, cfg: Config)
    requires
        complete_search(n, cfg),
        ({
            let scan = full_scan(
                search_plan(n, cfg, Some(1usize)),
                cfg.base_start as nat,
                cfg.segment_init as nat,
            );
            forall|k: int|
                0 <= k < scan.len() ==> !passes(n, #[trigger] scan[k].0 as nat, cfg.mr_rounds)
                    && passes(n, scan[k].0 as nat, cfg.mr_rounds) == is_prime(partner(n, scan[k].0 as nat))
        }),
    ensures
        forall|p: nat|
            #[trigger] is_prime(p) && p <= n && p < cfg.sieve_judge_bound * cfg.sieve_judge_bound ==> !is_prime(
                (n - p) as nat,
            ),
{
    let scan = full_scan(
        search_plan(n, cfg, Some(1usize)),
        cfg.base_start as nat,
        cfg.segment_init as nat,
    );
    lemma_scan_complete(n, cfg);
    assert(cfg.sieve_judge_bound * cfg.sieve_judge_bound <= 18446744065119617025) by (nonlinear_arith)
        requires cfg.sieve_judge_bound <= 4294967295;
    assert forall|p: nat|
        #[trigger] is_prime(p) && p <= n && p < cfg.sieve_judge_bound * cfg.sieve_judge_bound implies !is_prime(
        (n - p) as nat,
    ) by {
        if is_prime((n - p) as nat) {
            let idx = choose|idx: int| 0 <= idx < scan.len() && #[trigger] scan[idx].0 == p as u64;
            assert(!passes(n, scan[idx].0 as nat, cfg.mr_rounds));
            assert(partner(n, p) == (n - p) as nat);
        }
    }
}

} // verus!
