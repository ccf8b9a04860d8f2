//! The sequence of instants that a generator over a fixed zone hands out,
//! pull after pull, and what holds of it.

use vstd::prelude::*;

use crate::calendar::EPOCH_SECS;
use crate::instant::Instant;
use crate::iter::{
    advanced, candidates, offered, scan, stride, unit_at, unit_limit, End, IterConfig, IterState,
};
use crate::rule::{RRule, RuleSpec};
use crate::zone::{Tz, MAX_TS, MIN_TS};

verus! {

/// The state of a generator after `k` pulls.
pub open spec fn after(c: IterConfig, s: IterState, k: nat) -> IterState
    decreases k,
{
    if k == 0 {
        s
    } else {
        scan(c, after(c, s, (k - 1) as nat)).0
    }
}

/// What pull number `k` hands out, the first pull being number 0.
pub open spec fn pull(c: IterConfig, s: IterState, k: nat) -> Option<int> {
    scan(c, after(c, s, k)).1
}

/// The generator hands out the absolute second `t` at some pull.
pub open spec fn emits(c: IterConfig, s: IterState, t: int) -> bool {
    exists|k: nat| pull(c, s, k) == Some(t)
}

/// How many of the first `k` pulls hand out an instant.
pub open spec fn handed_out(c: IterConfig, s: IterState, k: nat) -> nat
    decreases k,
{
    if k == 0 {
        0
    } else {
        handed_out(c, s, (k - 1) as nat) + if pull(c, s, (k - 1) as nat) is Some {
            1nat
        } else {
            0nat
        }
    }
}

/// The wall-clock second that a fixed zone shows at an instant.
pub open spec fn anchor_local(dt_start: Instant) -> int {
    dt_start.ts + dt_start.tz.offset_of(dt_start.ts as int) + EPOCH_SECS
}

/// What the generator of a rule of a set is set up with.
pub open spec fn rule_config(rule: RuleSpec, tz: Tz) -> IterConfig {
    IterConfig { rule, tz }
}

/// Where the generator of a rule stands before its first pull: in the
/// period of the anchor, with the anchor as the earliest instant.
pub open spec fn rule_start(rule: RuleSpec, dt_start: Instant) -> IterState {
    IterState {
        unit: unit_at(rule.freq, rule.week_start.index(), anchor_local(dt_start)),
        index: 0,
        floor: dt_start.ts - 1,
        left: rule.count,
        end: End::Running,
    }
}

/// The rule, anchored at `dt_start`, hands out the absolute second `t`.
pub open spec fn rule_emits(rule: RuleSpec, dt_start: Instant, t: int) -> bool {
    emits(rule_config(rule, dt_start.tz), rule_start(rule, dt_start), t)
}

/// Some rule of the list, anchored at `dt_start`, hands out `t`.
pub open spec fn any_rule_emits(rules: Seq<RRule>, dt_start: Instant, t: int) -> bool {
    exists|j: int| 0 <= j < rules.len() && rule_emits(#[trigger] rules[j]@, dt_start, t)
}

/// Some rule of the list, given by its content and anchored at
/// `dt_start`, hands out `t`.
pub open spec fn any_spec_emits(rules: Seq<RuleSpec>, dt_start: Instant, t: int) -> bool {
    exists|j: int| 0 <= j < rules.len() && rule_emits(#[trigger] rules[j], dt_start, t)
}

/// What one pull does. An instant that is handed out is later than the
/// floor, becomes the new floor, is not later than the until bound, and
/// uses up one of the count. A pull that hands out nothing ends the
/// sequence and changes neither floor nor count. A sequence that has ended
/// stays as it is.
pub proof fn lemma_scan(c: IterConfig, s: IterState)
    ensures
        s.end != End::Running ==> scan(c, s) == (s, None::<int>),
        scan(c, s).1 matches Some(t) ==> {
            &&& s.end == End::Running
            &&& scan(c, s).0.end == End::Running
            &&& t > s.floor
            &&& scan(c, s).0.floor == t
            &&& MIN_TS <= t <= MAX_TS
            &&& (c.rule.until matches Some(u) ==> t <= u.ts)
            &&& (s.left matches Some(n) ==> n > 0 && scan(c, s).0.left == Some((n - 1) as u32))
            &&& (s.left is None ==> scan(c, s).0.left is None)
        },
        scan(c, s).1 is None ==> {
            &&& scan(c, s).0.end != End::Running
            &&& scan(c, s).0.floor == s.floor
            &&& scan(c, s).0.left == s.left
        },
        scan(c, s).0.end == End::Count ==> s.end == End::Count || s.left == Some(0u32),
    decreases unit_limit(c.rule.freq) - s.unit, candidates(c.rule, s.unit).len() - s.index,
{
    reveal(scan);
    let cands = candidates(c.rule, s.unit);
    if !(!(s.end != End::Running) && (s.left == Some(0u32))) && (s.index < cands.len()) {
        let tried = offered(c, s, c.tz.resolved(cands[s.index] as int));
        if !(tried.1 is Some || tried.0.end != End::Running) {
            lemma_scan(c, tried.0);
        }
    } else {
        let next = advanced(c, s);
        if next.end == End::Running {
            lemma_scan(c, next);
        }
    }
}

/// The floor never sinks, and once the sequence has ended it stays ended.
pub proof fn lemma_after_grows(c: IterConfig, s: IterState, j: nat, k: nat)
    requires
        j <= k,
    ensures
        after(c, s, j).floor <= after(c, s, k).floor,
        after(c, s, j).end != End::Running ==> after(c, s, k) == after(c, s, j),
    decreases k - j,
{
    if j < k {
        lemma_after_grows(c, s, j, (k - 1) as nat);
        lemma_scan(c, after(c, s, (k - 1) as nat));
    }
}

/// The period `unit` is reached from the period `from` in steps of
/// `step`.
pub open spec fn period_from(from: int, step: int, unit: int) -> bool
    decreases unit - from,
{
    if unit <= from || step <= 0 {
        unit == from
    } else if from + step > unit {
        false
    } else {
        period_from(from + step, step, unit)
    }
}

/// The absolute second `t` is what a candidate of the period `unit`
/// resolves to in the zone of the generator.
pub open spec fn candidate_at(c: IterConfig, unit: int, t: int) -> bool {
    exists|i: int|
        0 <= i < candidates(c.rule, unit).len() && c.tz.resolved(
            #[trigger] candidates(c.rule, unit)[i] as int,
        ) == Some(t)
}

/// A period that is reached from a period that is reached is reached.
pub proof fn lemma_period_from(a: int, step: int, b: int, u: int)
    requires
        step >= 1,
        period_from(a, step, b),
        period_from(b, step, u),
    ensures
        period_from(a, step, u),
    decreases b - a,
{
    if a < b {
        lemma_period_from(a + step, step, b, u);
        lemma_reached_later(b, step, u);
    }
}

/// A period that is reached is not an earlier one.
pub proof fn lemma_reached_later(a: int, step: int, u: int)
    requires
        step >= 1,
        period_from(a, step, u),
    ensures
        a <= u,
    decreases u - a,
{
    if a < u {
        lemma_reached_later(a + step, step, u);
    }
}

/// What one pull hands out is what a candidate of a period of the rule
/// resolves to, a period that is reached from the one in which the generator
/// stands; and the generator is left in that period.
pub proof fn lemma_scan_is_candidate(c: IterConfig, s: IterState)
    requires
        s.index >= 0,
    ensures
        period_from(s.unit, stride(c.rule), scan(c, s).0.unit),
        scan(c, s).0.index >= 0,
        scan(c, s).1 matches Some(t) ==> candidate_at(c, scan(c, s).0.unit, t),
    decreases unit_limit(c.rule.freq) - s.unit, candidates(c.rule, s.unit).len() - s.index,
{
    reveal(scan);
    let cands = candidates(c.rule, s.unit);
    if !(s.end != End::Running || s.left == Some(0u32)) && (s.index < cands.len()) {
        let tried = offered(c, s, c.tz.resolved(cands[s.index] as int));
        if !(tried.1 is Some || tried.0.end != End::Running) {
            lemma_scan_is_candidate(c, tried.0);
        }
    } else {
        let next = advanced(c, s);
        if next.end == End::Running {
            lemma_scan_is_candidate(c, next);
            lemma_reached_later(next.unit, stride(c.rule), scan(c, next).0.unit);
        }
    }
}

/// Where the generator stands after any number of pulls is a period that
/// is reached from the one in which it began.
pub proof fn lemma_after_is_reached(c: IterConfig, s: IterState, k: nat)
    requires
        s.index >= 0,
    ensures
        period_from(s.unit, stride(c.rule), after(c, s, k).unit),
        after(c, s, k).index >= 0,
    decreases k,
{
    if k > 0 {
        lemma_after_is_reached(c, s, (k - 1) as nat);
        let before = after(c, s, (k - 1) as nat);
        lemma_scan_is_candidate(c, before);
        lemma_period_from(s.unit, stride(c.rule), before.unit, after(c, s, k).unit);
    }
}

/// Every instant that a generator hands out is what a candidate of one of
/// the periods of the rule resolves to: a period that is reached from the
/// one in which the generator began, in steps of the rule's interval. It is
/// later than the floor and not later than the until bound.
pub proof fn lemma_emitted_is_candidate(c: IterConfig, s: IterState, k: nat)
    requires
        s.index >= 0,
        pull(c, s, k) is Some,
    ensures
        exists|unit: int|
            period_from(s.unit, stride(c.rule), unit) && #[trigger] candidate_at(
                c,
                unit,
                pull(c, s, k)->0,
            ),
        pull(c, s, k)->0 > s.floor,
        c.rule.until matches Some(u) ==> pull(c, s, k)->0 <= u.ts,
{
    lemma_after_is_reached(c, s, k);
    let here = after(c, s, k);
    lemma_scan_is_candidate(c, here);
    lemma_period_from(s.unit, stride(c.rule), here.unit, scan(c, here).0.unit);
    lemma_scan(c, here);
    lemma_after_grows(c, s, 0, k);
}

/// The instants of one rule come in strictly ascending order: a later pull
/// hands out a later instant.
pub proof fn lemma_pulls_ascend(c: IterConfig, s: IterState, j: nat, k: nat)
    requires
        j < k,
        pull(c, s, j) is Some,
        pull(c, s, k) is Some,
    ensures
        pull(c, s, j)->0 < pull(c, s, k)->0,
{
    lemma_scan(c, after(c, s, j));
    lemma_scan(c, after(c, s, k));
    lemma_after_grows(c, s, j + 1, k);
}

/// Once a pull hands out nothing, no later pull hands out anything.
pub proof fn lemma_end_is_final(c: IterConfig, s: IterState, j: nat, k: nat)
    requires
        j <= k,
        pull(c, s, j) is None,
    ensures
        pull(c, s, k) is None,
{
    lemma_scan(c, after(c, s, j));
    if j < k {
        lemma_after_grows(c, s, j + 1, k);
        lemma_scan(c, after(c, s, k));
    }
}

/// Every instant that a rule hands out is later than the floor it started
/// from and lies in the supported range.
pub proof fn lemma_emitted_above_floor(c: IterConfig, s: IterState, k: nat)
    requires
        pull(c, s, k) is Some,
    ensures
        s.floor < pull(c, s, k)->0,
        MIN_TS <= pull(c, s, k)->0 <= MAX_TS,
        c.rule.until matches Some(u) ==> pull(c, s, k)->0 <= u.ts,
{
    lemma_scan(c, after(c, s, k));
    lemma_after_grows(c, s, 0, k);
}

/// A rule with a count never hands out more instants than the count:
/// each instant handed out uses up one of it.
pub proof fn lemma_count_is_kept(c: IterConfig, s: IterState, n: u32, k: nat)
    requires
        s.left == Some(n),
        s.end == End::Running,
    ensures
        handed_out(c, s, k) <= n,
        after(c, s, k).left == Some((n - handed_out(c, s, k)) as u32),
        after(c, s, k).end == End::Count ==> after(c, s, k).left == Some(0u32),
    decreases k,
{
    if k > 0 {
        lemma_count_is_kept(c, s, n, (k - 1) as nat);
        lemma_scan(c, after(c, s, (k - 1) as nat));
    }
}

/// A rule with a count of `n` hands out instants at its first `n` pulls
/// at most.
pub proof fn lemma_count_bounds_pulls(c: IterConfig, s: IterState, n: u32, k: nat)
    requires
        s.left == Some(n),
        s.end == End::Running,
        pull(c, s, k) is Some,
    ensures
        k < n,
        handed_out(c, s, k + 1) == k + 1,
    decreases k,
{
    if k > 0 {
        lemma_earlier_pulls(c, s, (k - 1) as nat, k);
        lemma_count_bounds_pulls(c, s, n, (k - 1) as nat);
    }
    assert(handed_out(c, s, k + 1) == handed_out(c, s, k) + 1);
    lemma_count_is_kept(c, s, n, k + 1);
}

/// A rule with a count of `n` whose sequence has ended because the count
/// is used up has handed out exactly `n` instants.
pub proof fn lemma_count_fidelity(c: IterConfig, s: IterState, n: u32, k: nat)
    requires
        s.left == Some(n),
        s.end == End::Running,
        after(c, s, k).end == End::Count,
    ensures
        handed_out(c, s, k) == n,
{
    lemma_count_is_kept(c, s, n, k);
}

/// The until bound is inclusive: a candidate that resolves to exactly the
/// bound, and that is otherwise due, is handed out.
pub proof fn lemma_until_inclusive(c: IterConfig, s: IterState)
    requires
        s.end == End::Running,
        s.left != Some(0u32),
        0 <= s.index < candidates(c.rule, s.unit).len(),
        c.rule.until is Some,
        c.tz.resolved(candidates(c.rule, s.unit)[s.index] as int) == Some(
            c.rule.until->0.ts as int,
        ),
        s.floor < c.rule.until->0.ts,
    ensures
        scan(c, s).1 == Some(c.rule.until->0.ts as int),
        offered(c, s, Some(c.rule.until->0.ts as int)).1 == Some(c.rule.until->0.ts as int),
{
    reveal(scan);
}

/// `out` holds exactly the instants from `lo` to `hi` that the first `k`
/// pulls hand out, and each of those pulls hands out an instant up to `hi`.
pub open spec fn gathered(
    out: Seq<i64>,
    c: IterConfig,
    s: IterState,
    k: nat,
    lo: int,
    hi: int,
) -> bool {
    &&& forall|j: nat| j < k ==> (#[trigger] pull(c, s, j)) is Some && pull(c, s, j)->0 <= hi
    &&& forall|x: i64| #[trigger]
        out.contains(x) <==> lo <= x <= hi && exists|j: nat|
            j < k && #[trigger] pull(c, s, j) == Some(x as int)
}

/// A pull from the state after `k` pulls is pull number `k`, and leaves
/// the state after `k + 1` pulls.
pub proof fn lemma_pull_step(c: IterConfig, s: IterState, k: nat, at: IterState)
    requires
        at == after(c, s, k),
    ensures
        pull(c, s, k) == scan(c, at).1,
        after(c, s, k + 1) == scan(c, at).0,
{
}

/// Before any pull, nothing is gathered and nothing is missing.
pub proof fn lemma_gather_start(c: IterConfig, s: IterState, lo: int, hi: int)
    ensures
        gathered(Seq::<i64>::empty(), c, s, 0, lo, hi),
{
}

/// One more pull that hands out `t`, not later than `hi`, keeps what was
/// gathered complete once `t` is added where it is not earlier than `lo`.
pub proof fn lemma_gather_step(
    out: Seq<i64>,
    c: IterConfig,
    s: IterState,
    k: nat,
    lo: int,
    hi: int,
    t: i64,
)
    requires
        gathered(out, c, s, k, lo, hi),
        pull(c, s, k) == Some(t as int),
        t <= hi,
    ensures
        t >= lo ==> gathered(out.push(t), c, s, k + 1, lo, hi),
        t < lo ==> gathered(out, c, s, k + 1, lo, hi),
{
    let next = if t >= lo {
        out.push(t)
    } else {
        out
    };
    assert forall|x: i64| #[trigger]
        next.contains(x) <==> lo <= x <= hi && exists|j: nat|
            j < k + 1 && #[trigger] pull(c, s, j) == Some(x as int) by {
        if t >= lo {
            if out.contains(x) {
                let i = choose|i: int| 0 <= i < out.len() && out[i] == x;
                assert(next[i] == x);
            }
            if x == t {
                assert(next[out.len() as int] == x);
            }
        }
    }
}

/// When the pull after the gathered ones hands out nothing, or an instant
/// later than `hi`, what was gathered is all that the generator ever hands
/// out from `lo` to `hi`.
pub proof fn lemma_gather_end(
    out: Seq<i64>,
    c: IterConfig,
    s: IterState,
    k: nat,
    lo: int,
    hi: int,
)
    requires
        gathered(out, c, s, k, lo, hi),
        pull(c, s, k) is None || pull(c, s, k)->0 > hi,
    ensures
        forall|x: i64| #[trigger] out.contains(x) <==> lo <= x <= hi && emits(c, s, x as int),
{
    assert forall|x: i64| #[trigger] out.contains(x) <==> lo <= x <= hi && emits(
        c,
        s,
        x as int,
    ) by {
        if lo <= x <= hi && emits(c, s, x as int) {
            let j = choose|j: nat| pull(c, s, j) == Some(x as int);
            if j >= k {
                if pull(c, s, k) is None {
                    lemma_end_is_final(c, s, k, j);
                } else if j > k {
                    lemma_pulls_ascend(c, s, k, j);
                }
            }
        }
    }
}

/// Pulls made from the state after `k` pulls are the pulls from `k` on.
pub proof fn lemma_after_add(c: IterConfig, s: IterState, k: nat, j: nat)
    ensures
        after(c, after(c, s, k), j) == after(c, s, k + j),
        pull(c, after(c, s, k), j) == pull(c, s, k + j),
    decreases j,
{
    if j > 0 {
        lemma_after_add(c, s, k, (j - 1) as nat);
    }
}

/// What a generator hands out after `k` pulls, it hands out.
pub proof fn lemma_emits_from_later(c: IterConfig, s: IterState, k: nat, x: int)
    requires
        emits(c, after(c, s, k), x),
    ensures
        emits(c, s, x),
{
    let j = choose|j: nat| pull(c, after(c, s, k), j) == Some(x);
    lemma_after_add(c, s, k, j);
}

/// An instant later than the floor after `k` pulls is handed out, if at
/// all, by a pull after those.
pub proof fn lemma_emits_beyond(c: IterConfig, s: IterState, k: nat, x: int)
    requires
        emits(c, s, x),
        x > after(c, s, k).floor,
    ensures
        emits(c, after(c, s, k), x),
{
    let j = choose|j: nat| pull(c, s, j) == Some(x);
    if j < k {
        lemma_scan(c, after(c, s, j));
        lemma_after_grows(c, s, j + 1, k);
    } else {
        lemma_after_add(c, s, k, (j - k) as nat);
    }
}

/// A pull before one that hands out an instant hands out an instant too,
/// and not a later one.
pub proof fn lemma_earlier_pulls(c: IterConfig, s: IterState, j: nat, k: nat)
    requires
        j <= k,
        pull(c, s, k) is Some,
    ensures
        pull(c, s, j) is Some,
        pull(c, s, j)->0 <= pull(c, s, k)->0,
{
    if pull(c, s, j) is None {
        lemma_end_is_final(c, s, j, k);
    }
    if j < k {
        lemma_pulls_ascend(c, s, j, k);
    }
}

/// A pull hands out an instant later than the floor it is made from, and
/// a pull from a state that has ended hands out nothing.
pub proof fn lemma_pull_above(c: IterConfig, s: IterState, k: nat)
    ensures
        pull(c, s, k) matches Some(x) ==> x > after(c, s, k).floor,
        after(c, s, k).end != End::Running ==> pull(c, s, k) is None,
{
    lemma_scan(c, after(c, s, k));
}

/// A generator that has ended hands out nothing.
pub proof fn lemma_ended_emits_nothing(c: IterConfig, s: IterState, x: int)
    requires
        s.end != End::Running,
    ensures
        !emits(c, s, x),
{
    if emits(c, s, x) {
        let j = choose|j: nat| pull(c, s, j) == Some(x);
        lemma_after_grows(c, s, 0, j);
        lemma_scan(c, after(c, s, j));
    }
}

} // verus!
