//! Laws of what is collected from a set within bounds: it is determined by
//! the set, and a count bounds it.

use vstd::prelude::*;

use crate::instant::Instant;
use crate::rule::RuleSpec;
use crate::sequence::{
    lemma_count_bounds_pulls, lemma_earlier_pulls, pull, rule_config, rule_emits, rule_start,
};
use crate::set::{ascending, has_ts, SetSpec};

verus! {

/// Every second of an instant of `a` is one of an instant of `b`.
pub open spec fn among(a: Seq<Instant>, b: Seq<Instant>) -> bool {
    forall|k: int| 0 <= k < a.len() ==> has_ts(b, (#[trigger] a[k]).ts)
}

/// In an ascending list whose seconds are all among those of another, the
/// instant at place `k` is found in the other at place `k` or later.
pub proof fn lemma_found_later(a: Seq<Instant>, b: Seq<Instant>, k: int) -> (j: int)
    requires
        ascending(a),
        ascending(b),
        among(a, b),
        0 <= k < a.len(),
    ensures
        k <= j < b.len(),
        b[j].ts == a[k].ts,
    decreases k,
{
    let j = choose|j: int| 0 <= j < b.len() && (#[trigger] b[j]).ts == a[k].ts;
    if k > 0 {
        let before = lemma_found_later(a, b, k - 1);
        assert(b[before].ts < b[j].ts);
    }
    j
}

/// In an ascending list whose seconds are all among those of another of
/// the same length, the instant at place `k` is found in the other at place
/// `k` or earlier.
pub proof fn lemma_found_earlier(a: Seq<Instant>, b: Seq<Instant>, k: int) -> (j: int)
    requires
        ascending(a),
        ascending(b),
        among(a, b),
        a.len() == b.len(),
        0 <= k < a.len(),
    ensures
        0 <= j <= k,
        b[j].ts == a[k].ts,
    decreases a.len() - k,
{
    let j = choose|j: int| 0 <= j < b.len() && (#[trigger] b[j]).ts == a[k].ts;
    if k + 1 < a.len() {
        let behind = lemma_found_earlier(a, b, k + 1);
        assert(b[j].ts < b[behind].ts);
    }
    j
}

/// Two ascending lists, the seconds of the first all among those of the
/// second and the first not the shorter, hold the same seconds place for
/// place.
pub proof fn lemma_same_seconds(a: Seq<Instant>, b: Seq<Instant>)
    requires
        ascending(a),
        ascending(b),
        among(a, b),
        a.len() >= b.len(),
    ensures
        a.len() == b.len(),
        forall|k: int| 0 <= k < a.len() ==> (#[trigger] a[k]).ts == b[k].ts,
{
    if a.len() > 0 {
        let j = lemma_found_later(a, b, a.len() - 1);
    }
    assert forall|k: int| 0 <= k < a.len() implies (#[trigger] a[k]).ts == b[k].ts by {
        let lo = lemma_found_later(a, b, k);
        let hi = lemma_found_earlier(a, b, k);
    }
}

/// In an ascending list of instants that a rule hands out, the instant at
/// place `k` is handed out at pull `k` or later.
pub proof fn lemma_pulled_later(rule: RuleSpec, dt_start: Instant, dates: Seq<Instant>, k: int) -> (j:
    nat)
    requires
        ascending(dates),
        forall|i: int| 0 <= i < dates.len() ==> rule_emits(rule, dt_start, (#[trigger] dates[i]).ts as int),
        0 <= k < dates.len(),
    ensures
        k <= j,
        pull(rule_config(rule, dt_start.tz), rule_start(rule, dt_start), j) == Some(
            dates[k].ts as int,
        ),
    decreases k,
{
    let c = rule_config(rule, dt_start.tz);
    let s = rule_start(rule, dt_start);
    let j = choose|j: nat| pull(c, s, j) == Some(dates[k].ts as int);
    if k > 0 {
        let before = lemma_pulled_later(rule, dt_start, dates, k - 1);
        if j <= before {
            lemma_earlier_pulls(c, s, j, before);
        }
    }
    j
}

/// A rule with a count of `n` hands out at most `n` instants: an ascending
/// list of instants that it hands out is no longer than `n`.
pub proof fn lemma_count_bounds_list(rule: RuleSpec, dt_start: Instant, n: u32, dates: Seq<Instant>)
    requires
        rule.count == Some(n),
        ascending(dates),
        forall|i: int| 0 <= i < dates.len() ==> rule_emits(rule, dt_start, (#[trigger] dates[i]).ts as int),
    ensures
        dates.len() <= n,
{
    if dates.len() > 0 {
        let j = lemma_pulled_later(rule, dt_start, dates, dates.len() - 1);
        lemma_count_bounds_pulls(
            rule_config(rule, dt_start.tz),
            rule_start(rule, dt_start),
            n,
            j,
        );
    }
}

impl SetSpec {
    /// From a set whose one source is a rule with a count of `n`, no more
    /// than `n` instants are collected, whatever is excluded.
    pub proof fn lemma_count_bounds_collected(
        self,
        after: Option<Instant>,
        before: Option<Instant>,
        cap: int,
        limit: u32,
        dates: Seq<Instant>,
        n: u32,
    )
        requires
            self.rrule.len() == 1,
            self.rdate.len() == 0,
            self.rrule[0].count == Some(n),
            self.window_result(after, before, cap, limit, dates),
        ensures
            dates.len() <= n,
    {
        assert forall|i: int| 0 <= i < dates.len() implies rule_emits(
            self.rrule[0],
            self.dt_start,
            (#[trigger] dates[i]).ts as int,
        ) by {}
        lemma_count_bounds_list(self.rrule[0], self.dt_start, n, dates);
    }

    /// Of two lists that collecting from the set within the same bounds
    /// gives, the seconds of the shorter are all among those of the longer.
    pub proof fn lemma_collected_among(
        self,
        after: Option<Instant>,
        before: Option<Instant>,
        cap: int,
        limit: u32,
        a: Seq<Instant>,
        b: Seq<Instant>,
    )
        requires
            self.window_result(after, before, cap, limit, a),
            self.window_result(after, before, cap, limit, b),
            a.len() <= b.len(),
        ensures
            among(a, b),
            a.len() == b.len(),
    {
        if a.len() == 0 && cap == 0 {
        } else if a.len() == cap {
            let la = a.last().ts;
            let lb = b.last().ts;
            if la <= lb {
                assert forall|k: int| 0 <= k < a.len() implies has_ts(b, (#[trigger] a[k]).ts) by {}
            } else {
                assert forall|k: int| 0 <= k < b.len() implies has_ts(a, (#[trigger] b[k]).ts) by {}
                lemma_same_seconds(b, a);
                assert forall|k: int| 0 <= k < a.len() implies has_ts(b, (#[trigger] a[k]).ts) by {}
            }
        } else {
            self.lemma_all_held(after, before, cap, limit, a, b);
            lemma_same_seconds(b, a);
            assert forall|k: int| 0 <= k < a.len() implies has_ts(b, (#[trigger] a[k]).ts) by {}
        }
    }

    /// A list that collecting gives and that is shorter than the cap holds
    /// every second of any other list that collecting gives.
    pub proof fn lemma_all_held(
        self,
        after: Option<Instant>,
        before: Option<Instant>,
        cap: int,
        limit: u32,
        a: Seq<Instant>,
        b: Seq<Instant>,
    )
        requires
            self.window_result(after, before, cap, limit, a),
            self.window_result(after, before, cap, limit, b),
            a.len() < cap,
        ensures
            among(b, a),
    {
        if self.gives_up(before, limit) {
            assert forall|k: int| 0 <= k < b.len() implies has_ts(a, (#[trigger] b[k]).ts) by {}
        } else {
            assert forall|k: int| 0 <= k < b.len() implies has_ts(a, (#[trigger] b[k]).ts) by {}
        }
    }

    /// Collecting from the set within bounds has one result: two lists
    /// that both are what it gives are the same list.
    pub proof fn lemma_collected_once(
        self,
        after: Option<Instant>,
        before: Option<Instant>,
        cap: int,
        limit: u32,
        a: Seq<Instant>,
        b: Seq<Instant>,
    )
        requires
            self.window_result(after, before, cap, limit, a),
            self.window_result(after, before, cap, limit, b),
        ensures
            a == b,
    {
        if a.len() <= b.len() {
            self.lemma_collected_among(after, before, cap, limit, a, b);
            lemma_same_seconds(a, b);
        } else {
            self.lemma_collected_among(after, before, cap, limit, b, a);
            lemma_same_seconds(b, a);
        }
        assert forall|k: int| 0 <= k < a.len() implies a[k] == b[k] by {}
    }
}

} // verus!
