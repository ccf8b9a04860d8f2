//! Recurrence sets: an anchor, rules and explicit instants to include, and
//! rules and explicit instants to exclude.

use vstd::prelude::*;

use crate::cache::{cache_insert, cache_new};
use crate::instant::Instant;
use crate::failure::gives_up_at;
use crate::iter::{End, RRuleIter, MAX_ITER_LOOP};
use crate::rruleset_iter::{all_ready, all_wf, guard, RRuleSetIter};
use crate::rule::{RRule, RuleSpec};
use crate::sequence::{
    any_rule_emits, any_spec_emits, lemma_emitted_above_floor, pull, rule_config, rule_emits,
    rule_start,
};
use crate::zone::{MAX_TS, MIN_TS};

verus! {

/// Some instant of the list is at second `x`.
pub open spec fn has_ts(s: Seq<Instant>, x: i64) -> bool {
    exists|k: int| 0 <= k < s.len() && (#[trigger] s[k]).ts == x
}

/// The instants of the list come in strictly descending order.
pub open spec fn descending(s: Seq<Instant>) -> bool {
    forall|a: int, b: int| 0 <= a < b < s.len() ==> (#[trigger] s[a]).ts > (#[trigger] s[b]).ts
}

/// The instants of the list come in strictly ascending order.
pub open spec fn ascending(s: Seq<Instant>) -> bool {
    forall|a: int, b: int| 0 <= a < b < s.len() ==> (#[trigger] s[a]).ts < (#[trigger] s[b]).ts
}

/// The second `x` lies within the bounds: not before `after` and before
/// `before`, where these are set.
pub open spec fn in_bounds(after: Option<Instant>, before: Option<Instant>, x: i64) -> bool {
    (after matches Some(a) ==> a.ts <= x) && (before matches Some(b) ==> x < b.ts)
}

/// The mathematical content of a set: its anchor, the rules by their
/// content, and the explicit instants.
pub struct SetSpec {
    pub rrule: Seq<RuleSpec>,
    pub rdate: Seq<Instant>,
    pub exrule: Seq<RuleSpec>,
    pub exdate: Seq<Instant>,
    pub dt_start: Instant,
}

/// The contents of the rules of a list.
pub open spec fn views(v: Seq<RRule>) -> Seq<RuleSpec> {
    Seq::new(v.len(), |i: int| v[i]@)
}

impl SetSpec {
    /// The instant at second `x` is to be included: an inclusion rule hands
    /// it out, or it is an explicit instant.
    pub open spec fn is_included(self, x: i64) -> bool {
        any_spec_emits(self.rrule, self.dt_start, x as int) || has_ts(self.rdate, x)
    }

    /// The instant at second `x` is to be excluded: it is an explicit
    /// excluded instant, or an exclusion rule hands it out.
    pub open spec fn is_excluded(self, x: i64) -> bool {
        has_ts(self.exdate, x) || any_spec_emits(self.exrule, self.dt_start, x as int)
    }

    /// The instant at second `x` belongs to the set.
    pub open spec fn occurs(self, x: i64) -> bool {
        self.is_included(x) && !self.is_excluded(x)
    }

    /// A merge of the set that has handed out everything up to `f` gives
    /// up at its next step: too many candidates in a row of one of its
    /// sources are excluded, `limit` of them but at least one.
    pub open spec fn gives_up_behind(self, limit: u32, f: int) -> bool {
        gives_up_at(
            self.rrule,
            waiting_of(self.rdate),
            explicit_of(self.exdate),
            self.exrule,
            self.dt_start,
            guard(limit),
            f,
        )
    }

    /// A collection from the set up to `before` comes to stand at `f`
    /// and asks for more: `f` is where every merge starts, or an instant of
    /// the set before the bound.
    pub open spec fn comes_to(self, before: Option<Instant>, f: i64) -> bool {
        f == MIN_TS - 1 || (self.occurs(f) && (before matches Some(b) ==> f < b.ts))
    }

    /// A collection from the set up to `before` gives up, unless it has
    /// enough before: at some place where it comes to stand, the merge gives
    /// up.
    pub open spec fn gives_up(self, before: Option<Instant>, limit: u32) -> bool {
        exists|f: i64| self.comes_to(before, f) && #[trigger] self.gives_up_behind(limit, f as int)
    }

    /// The first place at which a collection from the set gives up.
    pub open spec fn gives_up_first_at(self, before: Option<Instant>, limit: u32, f: i64) -> bool {
        &&& self.comes_to(before, f)
        &&& self.gives_up_behind(limit, f as int)
        &&& forall|e: i64|
            self.comes_to(before, e) && e < f ==> !#[trigger] self.gives_up_behind(limit, e as int)
    }

    /// The instant is shown as a source of the set has it: it is an
    /// explicit instant as it waits in the merge, or it is in the zone of
    /// the anchor.
    pub open spec fn from_source(self, d: Instant) -> bool {
        let w = waiting_of(self.rdate);
        (exists|k: int| 0 <= k < w.len() && #[trigger] w[k] == d) || d.tz == self.dt_start.tz
    }

    /// The instant is shown as the set has it: an explicit instant as it
    /// waits in the merge, any other in the zone of the anchor.
    pub open spec fn shows(self, d: Instant) -> bool {
        let w = waiting_of(self.rdate);
        &&& forall|k: int| 0 <= k < w.len() && (#[trigger] w[k]).ts == d.ts ==> w[k] == d
        &&& self.from_source(d)
    }

    /// All instants of the set within the bounds and up to `f` are among
    /// `dates`.
    pub open spec fn holds_up_to(
        self,
        after: Option<Instant>,
        before: Option<Instant>,
        dates: Seq<Instant>,
        f: int,
    ) -> bool {
        forall|x: i64| #[trigger]
            self.occurs(x) && in_bounds(after, before, x) && x <= f ==> has_ts(dates, x)
    }

    /// What collecting from the set within bounds gives, by a merge that
    /// gives up at `limit` excluded candidates in a row: at most `cap`
    /// instants in ascending order, each of the set, within the bounds and
    /// shown as the set has it. None is missing up to the last of them, and
    /// the merge does not give up before it. Where fewer than `cap` are
    /// collected, either the merge gave up, and they are those up to the
    /// first place at which it does, or they are all there are.
    pub open spec fn window_result(
        self,
        after: Option<Instant>,
        before: Option<Instant>,
        cap: int,
        limit: u32,
        dates: Seq<Instant>,
    ) -> bool {
        &&& dates.len() <= cap
        &&& ascending(dates)
        &&& forall|k: int|
            0 <= k < dates.len() ==> (#[trigger] dates[k]).wf() && in_bounds(
                after,
                before,
                dates[k].ts,
            ) && self.occurs(dates[k].ts) && self.shows(dates[k])
        &&& (dates.len() > 0 ==> self.holds_up_to(after, before, dates, dates.last().ts as int))
        &&& (dates.len() > 0 ==> forall|e: i64|
            self.comes_to(before, e) && e < dates.last().ts ==> !#[trigger] self.gives_up_behind(
                limit,
                e as int,
            ))
        &&& (dates.len() < cap ==> if self.gives_up(before, limit) {
            exists|f: i64| #[trigger]
                self.gives_up_first_at(before, limit, f) && self.holds_up_to(
                    after,
                    before,
                    dates,
                    f as int,
                ) && (dates.len() > 0 ==> dates.last().ts <= f)
        } else {
            forall|x: i64| #[trigger]
                self.occurs(x) && in_bounds(after, before, x) ==> has_ts(dates, x)
        })
    }
}

/// A rule of a list hands out an instant just when the content of one
/// does.
pub proof fn lemma_emits_by_content(rules: Seq<RRule>, dt_start: Instant, t: int)
    ensures
        any_rule_emits(rules, dt_start, t) == any_spec_emits(views(rules), dt_start, t),
{
    if any_rule_emits(rules, dt_start, t) {
        let j = choose|j: int| 0 <= j < rules.len() && rule_emits(#[trigger] rules[j]@, dt_start, t);
        assert(views(rules)[j] == rules[j]@);
    }
}

/// A recurrence set.
pub struct RRuleSet {
    /// The inclusion rules, in normal form for the anchor.
    pub rrule: Vec<RRule>,
    /// The explicit instants to include.
    pub rdate: Vec<Instant>,
    /// The exclusion rules, in normal form for the anchor.
    pub exrule: Vec<RRule>,
    /// The explicit instants to exclude.
    pub exdate: Vec<Instant>,
    /// The anchor.
    pub dt_start: Instant,
    /// If set, only instants before this one are collected.
    pub before: Option<Instant>,
    /// If set, only instants from this one on are collected.
    pub after: Option<Instant>,
}

/// What collecting the instants of a set gave.
pub struct RRuleResult {
    /// The instants, ascending.
    pub dates: Vec<Instant>,
    /// Whether the collection stopped at its bound or on an error, so that
    /// later instants of the set may be missing.
    pub limited: bool,
}

/// The explicit excluded seconds of a set.
pub open spec fn explicit_of(exdate: Seq<Instant>) -> Set<i64> {
    Set::new(|x: i64| has_ts(exdate, x))
}

/// A descending list with `d` put at its place, unless the list holds an
/// instant at the same second.
pub open spec fn put_desc(out: Seq<Instant>, d: Instant) -> Seq<Instant>
    decreases out.len(),
{
    if out.len() == 0 {
        seq![d]
    } else if out[0].ts > d.ts {
        seq![out[0]] + put_desc(out.skip(1), d)
    } else if out[0].ts == d.ts {
        out
    } else {
        seq![d] + out
    }
}

/// The explicit instants of a set as they wait in a merge: latest first,
/// and of those at one second the one that comes first in the set.
pub open spec fn waiting_of(dates: Seq<Instant>) -> Seq<Instant>
    decreases dates.len(),
{
    if dates.len() == 0 {
        Seq::empty()
    } else {
        put_desc(waiting_of(dates.drop_last()), dates.last())
    }
}

/// Putting an instant at its place is inserting it behind the instants
/// that are later, unless one at its second is there.
pub proof fn lemma_put_desc(out: Seq<Instant>, d: Instant, p: int)
    requires
        0 <= p <= out.len(),
        forall|k: int| 0 <= k < p ==> (#[trigger] out[k]).ts > d.ts,
        p < out.len() ==> out[p].ts <= d.ts,
    ensures
        put_desc(out, d) == (if p < out.len() && out[p].ts == d.ts {
            out
        } else {
            out.insert(p, d)
        }),
    decreases p,
{
    if !(p == 0) {
        let rest = out.skip(1);
        assert forall|k: int| 0 <= k < p - 1 implies (#[trigger] rest[k]).ts > d.ts by {}
        lemma_put_desc(rest, d, p - 1);
    }
}

/// Some instant of the list is `d`, zone and all.
pub open spec fn holds(s: Seq<Instant>, d: Instant) -> bool {
    exists|k: int| 0 <= k < s.len() && #[trigger] s[k] == d
}

/// A descending list with an instant put at its place is descending.
pub proof fn lemma_put_desc_descending(out: Seq<Instant>, d: Instant)
    requires
        descending(out),
    ensures
        descending(put_desc(out, d)),
{
    let p = first_not_later(out, d, 0);
    lemma_first_not_later(out, d, 0);
    lemma_put_desc(out, d, p);
    let now = put_desc(out, d);
    if !(p < out.len() && out[p].ts == d.ts) {
        assert forall|a: int, b: int| 0 <= a < b < now.len() implies (#[trigger] now[a]).ts > (
        #[trigger] now[b]).ts by {}
    }
}

/// A descending list with an instant put at its place holds an instant at
/// the second of that one and at the seconds at which it held one.
pub proof fn lemma_put_desc_seconds(out: Seq<Instant>, d: Instant, x: i64)
    requires
        descending(out),
    ensures
        has_ts(put_desc(out, d), x) <==> has_ts(out, x) || x == d.ts,
{
    let p = first_not_later(out, d, 0);
    lemma_first_not_later(out, d, 0);
    lemma_put_desc(out, d, p);
    let now = put_desc(out, d);
    if !(p < out.len() && out[p].ts == d.ts) {
        if has_ts(now, x) {
            let k = choose|k: int| 0 <= k < now.len() && (#[trigger] now[k]).ts == x;
        }
        if has_ts(out, x) {
            let k = choose|k: int| 0 <= k < out.len() && (#[trigger] out[k]).ts == x;
            if k < p {
                assert(now[k].ts == x);
            } else {
                assert(now[k + 1].ts == x);
            }
        }
        if x == d.ts {
            assert(now[p].ts == x);
        }
    }
}

/// Each instant of a descending list with `d` put at its place is `d` or
/// one of the list.
pub proof fn lemma_put_desc_members(out: Seq<Instant>, d: Instant, k: int)
    requires
        descending(out),
        0 <= k < put_desc(out, d).len(),
    ensures
        put_desc(out, d)[k] == d || holds(out, put_desc(out, d)[k]),
{
    let p = first_not_later(out, d, 0);
    lemma_first_not_later(out, d, 0);
    lemma_put_desc(out, d, p);
}

/// The first place from `from` on in a list at which an instant is not
/// later than `d`, or the length of the list.
pub open spec fn first_not_later(out: Seq<Instant>, d: Instant, from: int) -> int
    decreases out.len() - from,
{
    if 0 <= from < out.len() && out[from].ts > d.ts {
        first_not_later(out, d, from + 1)
    } else {
        from
    }
}

/// Before the first place at which an instant is not later than `d`,
/// every instant from `from` on is later.
pub proof fn lemma_first_not_later(out: Seq<Instant>, d: Instant, from: int)
    requires
        0 <= from <= out.len(),
    ensures
        from <= first_not_later(out, d, from) <= out.len(),
        forall|k: int| from <= k < first_not_later(out, d, from) ==> (#[trigger] out[k]).ts > d.ts,
        first_not_later(out, d, from) < out.len() ==> out[first_not_later(out, d, from)].ts <= d.ts,
    decreases out.len() - from,
{
    if from < out.len() && out[from].ts > d.ts {
        lemma_first_not_later(out, d, from + 1);
    }
}

/// The explicit instants as they wait in a merge are in descending
/// order, at the seconds of the explicit instants of the set, and each is
/// one of them.
pub proof fn lemma_waiting_of(dates: Seq<Instant>)
    ensures
        descending(waiting_of(dates)),
        forall|x: i64| has_ts(waiting_of(dates), x) <==> has_ts(dates, x),
        forall|k: int|
            0 <= k < waiting_of(dates).len() ==> holds(dates, #[trigger] waiting_of(dates)[k]),
    decreases dates.len(),
{
    let w = waiting_of(dates);
    if dates.len() > 0 {
        let rest = dates.drop_last();
        let d = dates.last();
        lemma_waiting_of(rest);
        lemma_put_desc_descending(waiting_of(rest), d);
        assert forall|x: i64| has_ts(w, x) <==> has_ts(dates, x) by {
            lemma_put_desc_seconds(waiting_of(rest), d, x);
            if has_ts(rest, x) {
                let k = choose|k: int| 0 <= k < rest.len() && (#[trigger] rest[k]).ts == x;
            }
            if has_ts(dates, x) {
                let k = choose|k: int| 0 <= k < dates.len() && (#[trigger] dates[k]).ts == x;
                if k < rest.len() {
                    assert(rest[k].ts == x);
                }
            }
        }
        assert forall|k: int| 0 <= k < w.len() implies holds(dates, #[trigger] w[k]) by {
            lemma_put_desc_members(waiting_of(rest), d, k);
        }
    }
}

/// Puts `d` into a descending list at its place, unless the list holds an
/// instant at the same second.
pub fn insert_desc(out: &mut Vec<Instant>, d: Instant)
    requires
        descending(old(out)@),
        all_wf(old(out)@),
        d.wf(),
    ensures
        final(out)@ == put_desc(old(out)@, d),
        descending(final(out)@),
        all_wf(final(out)@),
        forall|x: i64| has_ts(final(out)@, x) <==> has_ts(old(out)@, x) || x == d.ts,
{
    let mut p: usize = 0;
    while p < out.len() && out[p].ts > d.ts
        invariant
            p <= out@.len(),
            *out == *old(out),
            forall|k: int| 0 <= k < p ==> (#[trigger] out@[k]).ts > d.ts,
        decreases out@.len() - p,
    {
        p = p + 1;
    }
    let ghost was = out@;
    proof {
        lemma_put_desc(was, d, p as int);
        lemma_put_desc_descending(was, d);
    }
    if p < out.len() && out[p].ts == d.ts {
        return ;
    }
    out.insert(p, d);
    proof {
        assert forall|x: i64| has_ts(out@, x) <==> has_ts(old(out)@, x) || x == d.ts by {
            lemma_put_desc_seconds(was, d, x);
        }
        assert forall|k: int| 0 <= k < out@.len() implies (#[trigger] out@[k]).wf() by {
            lemma_put_desc_members(was, d, k);
        }
    }
}

/// The instants of `dates`, latest first, one for each second.
pub fn sorted_desc(dates: &Vec<Instant>) -> (r: Vec<Instant>)
    requires
        all_wf(dates@),
    ensures
        r@ == waiting_of(dates@),
        descending(r@),
        all_wf(r@),
        forall|x: i64| has_ts(r@, x) <==> has_ts(dates@, x),
{
    let mut out: Vec<Instant> = Vec::new();
    let mut i: usize = 0;
    while i < dates.len()
        invariant
            out@ == waiting_of(dates@.subrange(0, i as int)),
            i <= dates@.len(),
            all_wf(dates@),
            descending(out@),
            all_wf(out@),
            forall|x: i64| has_ts(out@, x) <==> has_ts(dates@.subrange(0, i as int), x),
        decreases dates@.len() - i,
    {
        insert_desc(&mut out, dates[i]);
        proof {
            let more = dates@.subrange(0, i + 1);
            assert(more.drop_last() =~= dates@.subrange(0, i as int));
            assert(more.last() == dates@[i as int]);
            assert forall|x: i64| has_ts(out@, x) <==> has_ts(more, x) by {}
        }
        i = i + 1;
    }
    assert(dates@.subrange(0, i as int) == dates@);
    out
}

impl RRuleSet {
    /// The anchor and all explicit instants lie in the supported range, and
    /// every rule is fit for a generator.
    pub open spec fn wf(&self) -> bool {
        &&& self.dt_start.wf()
        &&& all_ready(self.rrule@)
        &&& all_ready(self.exrule@)
        &&& all_wf(self.rdate@)
        &&& all_wf(self.exdate@)
    }

    /// The instant at second `x` is to be included: an inclusion rule hands
    /// it out, or it is an explicit instant.
    pub open spec fn is_included(&self, x: i64) -> bool {
        any_rule_emits(self.rrule@, self.dt_start, x as int) || has_ts(self.rdate@, x)
    }

    /// The instant at second `x` is to be excluded: it is an explicit
    /// excluded instant, or an exclusion rule hands it out.
    pub open spec fn is_excluded(&self, x: i64) -> bool {
        has_ts(self.exdate@, x) || any_rule_emits(self.exrule@, self.dt_start, x as int)
    }

    /// The instant at second `x` belongs to the set.
    pub open spec fn occurs(&self, x: i64) -> bool {
        self.is_included(x) && !self.is_excluded(x)
    }

    /// The second `x` lies in the window of the set: not before `after`
    /// and before `before`, where these are set.
    pub open spec fn in_window(&self, x: i64) -> bool {
        in_bounds(self.after, self.before, x)
    }

    /// The content of the set, without its window.
    pub open spec fn content(&self) -> SetSpec {
        SetSpec {
            rrule: views(self.rrule@),
            rdate: self.rdate@,
            exrule: views(self.exrule@),
            exdate: self.exdate@,
            dt_start: self.dt_start,
        }
    }

    /// Whether an instant belongs to a set is decided by the content of
    /// the set.
    pub proof fn lemma_occurs_by_content(&self, x: i64)
        ensures
            self.occurs(x) == self.content().occurs(x),
    {
        lemma_emits_by_content(self.rrule@, self.dt_start, x as int);
        lemma_emits_by_content(self.exrule@, self.dt_start, x as int);
    }

    /// A set with the given anchor and nothing else.
    pub fn new(dt_start: Instant) -> (r: RRuleSet)
        ensures
            r.dt_start == dt_start,
            r.rrule@.len() == 0,
            r.rdate@.len() == 0,
            r.exrule@.len() == 0,
            r.exdate@.len() == 0,
            r.before is None,
            r.after is None,
            dt_start.wf() ==> r.wf(),
    {
        RRuleSet {
            rrule: Vec::new(),
            rdate: Vec::new(),
            exrule: Vec::new(),
            exdate: Vec::new(),
            dt_start,
            before: None,
            after: None,
        }
    }

    /// Restricts collection to instants from `dt` on.
    pub fn after(self, dt: Instant) -> (r: RRuleSet)
        ensures
            r.after == Some(dt),
            r.before == self.before,
            r.rrule == self.rrule,
            r.rdate == self.rdate,
            r.exrule == self.exrule,
            r.exdate == self.exdate,
            r.dt_start == self.dt_start,
    {
        let mut r = self;
        r.after = Some(dt);
        r
    }

    /// Restricts collection to instants before `dt`.
    pub fn before(self, dt: Instant) -> (r: RRuleSet)
        ensures
            r.before == Some(dt),
            r.after == self.after,
            r.rrule == self.rrule,
            r.rdate == self.rdate,
            r.exrule == self.exrule,
            r.exdate == self.exdate,
            r.dt_start == self.dt_start,
    {
        let mut r = self;
        r.before = Some(dt);
        r
    }

    /// Adds an inclusion rule.
    pub fn rrule(self, rule: RRule) -> (r: RRuleSet)
        ensures
            r.rrule@ == self.rrule@.push(rule),
            r.rdate == self.rdate,
            r.exrule == self.exrule,
            r.exdate == self.exdate,
            r.dt_start == self.dt_start,
            r.before == self.before,
            r.after == self.after,
            self.wf() && rule.ready() ==> r.wf(),
    {
        let mut r = self;
        r.rrule.push(rule);
        r
    }

    /// Adds an exclusion rule.
    pub fn exrule(self, rule: RRule) -> (r: RRuleSet)
        ensures
            r.exrule@ == self.exrule@.push(rule),
            r.rdate == self.rdate,
            r.rrule == self.rrule,
            r.exdate == self.exdate,
            r.dt_start == self.dt_start,
            r.before == self.before,
            r.after == self.after,
            self.wf() && rule.ready() ==> r.wf(),
    {
        let mut r = self;
        r.exrule.push(rule);
        r
    }

    /// Adds an explicit instant to include.
    pub fn rdate(self, d: Instant) -> (r: RRuleSet)
        ensures
            r.rdate@ == self.rdate@.push(d),
            r.rrule == self.rrule,
            r.exrule == self.exrule,
            r.exdate == self.exdate,
            r.dt_start == self.dt_start,
            r.before == self.before,
            r.after == self.after,
            self.wf() && d.wf() ==> r.wf(),
    {
        let mut r = self;
        r.rdate.push(d);
        r
    }

    /// Adds an explicit instant to exclude.
    pub fn exdate(self, d: Instant) -> (r: RRuleSet)
        ensures
            r.exdate@ == self.exdate@.push(d),
            r.rrule == self.rrule,
            r.exrule == self.exrule,
            r.rdate == self.rdate,
            r.dt_start == self.dt_start,
            r.before == self.before,
            r.after == self.after,
            self.wf() && d.wf() ==> r.wf(),
    {
        let mut r = self;
        r.exdate.push(d);
        r
    }

    /// Replaces the inclusion rules.
    pub fn set_rrules(self, rules: Vec<RRule>) -> (r: RRuleSet)
        ensures
            r.rrule == rules,
            r.rdate == self.rdate,
            r.exrule == self.exrule,
            r.exdate == self.exdate,
            r.dt_start == self.dt_start,
            r.before == self.before,
            r.after == self.after,
            self.wf() && all_ready(rules@) ==> r.wf(),
    {
        let mut r = self;
        r.rrule = rules;
        r
    }

    /// The inclusion rules.
    pub fn get_rrule(&self) -> (r: &Vec<RRule>)
        ensures
            r == &self.rrule,
    {
        &self.rrule
    }

    /// The exclusion rules.
    pub fn get_exrule(&self) -> (r: &Vec<RRule>)
        ensures
            r == &self.exrule,
    {
        &self.exrule
    }

    /// The explicit instants to include.
    pub fn get_rdate(&self) -> (r: &Vec<Instant>)
        ensures
            r == &self.rdate,
    {
        &self.rdate
    }

    /// The explicit instants to exclude.
    pub fn get_exdate(&self) -> (r: &Vec<Instant>)
        ensures
            r == &self.exdate,
    {
        &self.exdate
    }

    /// The anchor.
    pub fn get_dt_start(&self) -> (r: &Instant)
        ensures
            r == &self.dt_start,
    {
        &self.dt_start
    }

    /// The merge stands before the first instant of this set: every slot
    /// is empty, there is one generator for each inclusion rule, in their
    /// order, each before its first pull; the excluded seconds are the
    /// explicit ones; and the explicit instants wait latest first, one for
    /// each second.
    pub open spec fn fresh<'a>(&'a self, it: &RRuleSetIter<'a>) -> bool {
        &&& it.queue@.len() == self.rrule@.len()
        &&& it.rrule_iters@.len() == self.rrule@.len()
        &&& it.pulls@.len() == self.rrule@.len()
        &&& forall|i: int|
            0 <= i < self.rrule@.len() ==> {
                let g = #[trigger] it.rrule_iters@[i];
                &&& it.queue@[i] is None
                &&& it.pulls@[i] == 0
                &&& g.rule == &self.rrule@[i]
                &&& g.tz == self.dt_start.tz
                &&& g.floor == self.dt_start.ts - 1
                &&& g.left == self.rrule@[i].count
                &&& g.end == End::Running
                &&& (self.dt_start.tz.is_fixed() ==> g.state() == rule_start(
                    self.rrule@[i]@,
                    self.dt_start,
                ))
            }
        &&& it.rules() == views(self.rrule@)
        &&& it.explicit@ == explicit_of(self.exdate@)
        &&& it.exdates@ == it.explicit@
        &&& it.given@ == waiting_of(self.rdate@)
        &&& it.rdates@ == it.given@
    }

    /// Two merges that stand before the first instant of this set, with
    /// the same bound, have the same setup: started again, a merge hands out
    /// what the first one did.
    pub proof fn lemma_fresh_agree<'a>(&'a self, a: &RRuleSetIter<'a>, b: &RRuleSetIter<'a>)
        requires
            self.fresh(a),
            self.fresh(b),
            a.dt_start == self.dt_start,
            b.dt_start == self.dt_start,
            a.exrules == &self.exrule,
            b.exrules == &self.exrule,
            a.limit == b.limit,
        ensures
            a.same_setup(b),
    {
    }

    /// The merge of the sources of this set, before its first instant,
    /// with `limit` as the number of excluded candidates in a row at which
    /// a source gives up.
    #[verifier::rlimit(60)]
    pub fn iter_with_limit<'a>(&'a self, limit: u32) -> (r: RRuleSetIter<'a>)
        requires
            self.wf(),
        ensures
            r.wf(),
            r.error is None,
            r.floor == MIN_TS - 1,
            r.limit == limit,
            r.dt_start == self.dt_start,
            r.exrules == &self.exrule,
            forall|x: i64| r.occurs(x) == self.occurs(x),
            forall|x: i64| r.explicit@.contains(x) == has_ts(self.exdate@, x),
            self.fresh(&r),
    {
        let mut iters: Vec<RRuleIter<'a>> = Vec::new();
        let mut queue: Vec<Option<Instant>> = Vec::new();
        let mut i: usize = 0;
        let ghost tz = self.dt_start.tz;
        while i < self.rrule.len()
            invariant
                self.wf(),
                i <= self.rrule@.len(),
                iters@.len() == i,
                queue@.len() == i,
                tz == self.dt_start.tz,
                forall|k: int| 0 <= k < i ==> (#[trigger] queue@[k]) is None,
                forall|k: int|
                    0 <= k < i ==> {
                        let it = #[trigger] iters@[k];
                        &&& it.wf()
                        &&& it.rule == &self.rrule@[k]
                        &&& it.config() == rule_config(it.rule@, tz)
                        &&& it.floor == self.dt_start.ts - 1
                        &&& it.left == self.rrule@[k].count
                        &&& it.end == End::Running
                        &&& (tz.is_fixed() ==> it.state() == rule_start(it.rule@, self.dt_start))
                    },
            decreases self.rrule@.len() - i,
        {
            let it = self.rrule[i].iter_with_ctx(self.dt_start);
            iters.push(it);
            queue.push(None);
            i = i + 1;
        }
        let mut cache = cache_new();
        let mut j: usize = 0;
        while j < self.exdate.len()
            invariant
                j <= self.exdate@.len(),
                forall|x: i64| cache@.contains(x) <==> has_ts(self.exdate@.subrange(0, j as int), x),
            decreases self.exdate@.len() - j,
        {
            cache_insert(&mut cache, self.exdate[j].ts);
            proof {
                let part = self.exdate@.subrange(0, j as int);
                let more = self.exdate@.subrange(0, j + 1);
                assert forall|x: i64| cache@.contains(x) <==> has_ts(more, x) by {
                    if has_ts(more, x) {
                        let k = choose|k: int| 0 <= k < more.len() && (#[trigger] more[k]).ts == x;
                    }
                    if has_ts(part, x) {
                        let k = choose|k: int| 0 <= k < part.len() && (#[trigger] part[k]).ts == x;
                    }
                    if x == self.exdate@[j as int].ts {
                        assert(more[j as int].ts == x);
                    }
                }
            }
            j = j + 1;
        }
        assert(self.exdate@.subrange(0, j as int) == self.exdate@);
        let rdates = sorted_desc(&self.rdate);
        let ghost pulls = Seq::new(iters@.len(), |k: int| 0nat);
        let r = RRuleSetIter {
            queue,
            rrule_iters: iters,
            exrules: &self.exrule,
            exdates: cache,
            rdates,
            error: None,
            dt_start: self.dt_start,
            floor: MIN_TS - 1,
            limit,
            explicit: Ghost(cache@),
            given: Ghost(rdates@),
            pulls: Ghost(pulls),
        };
        proof {
            assert(r.rules() =~= views(self.rrule@));
            assert(r.explicit@ =~= explicit_of(self.exdate@));
            assert(r.rdates@ == r.given@.subrange(0, r.rdates@.len() as int));
            assert forall|k: int| 0 <= k < r.rrule_iters@.len() implies #[trigger] r.slot_ok(k) by {
                let it = r.rrule_iters@[k];
                if r.dt_start.tz.is_fixed() {
                    let c = rule_config(it.rule@, r.dt_start.tz);
                    let s0 = rule_start(it.rule@, r.dt_start);
                    assert forall|x: i64| #[trigger]
                        rule_emits(it.rule@, r.dt_start, x as int) implies x > it.floor by {
                        let j = choose|j: nat| pull(c, s0, j) == Some(x as int);
                        lemma_emitted_above_floor(c, s0, j);
                    }
                }
            }
            assert forall|x: i64| r.occurs(x) == self.occurs(x) by {
                if r.is_included(x) {
                    if exists|i: int| 0 <= i < r.rrule_iters@.len() && #[trigger] r.rule_source(i, x) {
                        let w = choose|i: int|
                            0 <= i < r.rrule_iters@.len() && #[trigger] r.rule_source(i, x);
                    }
                }
                if self.is_included(x) {
                    if any_rule_emits(self.rrule@, self.dt_start, x as int) {
                        let w = choose|w: int|
                            0 <= w < self.rrule@.len() && rule_emits(
                                #[trigger] self.rrule@[w]@,
                                self.dt_start,
                                x as int,
                            );
                        assert(r.rule_source(w, x));
                    }
                }
            }
        }
        r
    }

    /// The merge of the sources of this set, before its first instant.
    pub fn into_iter<'a>(&'a self) -> (r: RRuleSetIter<'a>)
        requires
            self.wf(),
        ensures
            r.wf(),
            r.error is None,
            r.floor == MIN_TS - 1,
            r.limit == 100000,
            r.dt_start == self.dt_start,
            r.exrules == &self.exrule,
            forall|x: i64| r.occurs(x) == self.occurs(x),
            forall|x: i64| r.explicit@.contains(x) == has_ts(self.exdate@, x),
            self.fresh(&r),
    {
        self.iter_with_limit(MAX_ITER_LOOP)
    }
}

/// In an ascending list no second comes twice.
pub proof fn lemma_no_duplicates(dates: Seq<Instant>, i: int, j: int)
    requires
        ascending(dates),
        0 <= i < dates.len(),
        0 <= j < dates.len(),
        i != j,
    ensures
        dates[i].ts != dates[j].ts,
{
}

/// A list that holds an instant at second `x` still holds one after an
/// instant was added.
pub proof fn lemma_has_ts_push(s: Seq<Instant>, d: Instant, x: i64)
    ensures
        has_ts(s.push(d), x) <==> has_ts(s, x) || x == d.ts,
{
    let t = s.push(d);
    if has_ts(s, x) {
        let k = choose|k: int| 0 <= k < s.len() && (#[trigger] s[k]).ts == x;
        assert(t[k].ts == x);
    }
    if x == d.ts {
        assert(t[s.len() as int].ts == x);
    }
}

impl RRuleSet {
    /// What `all` promises of the instants it collected from a set over a
    /// fixed zone: each belongs to the set, and none that belongs to the set
    /// and lies in the window is missing, up to the last one collected where
    /// the collection was cut short.
    pub open spec fn collected(&self, dates: Seq<Instant>, limited: bool) -> bool {
        &&& forall|k: int| 0 <= k < dates.len() ==> self.occurs((#[trigger] dates[k]).ts)
        &&& forall|x: i64| #[trigger]
            self.occurs(x) && self.in_window(x) && (limited ==> dates.len() > 0 && x
                <= dates.last().ts) ==> has_ts(dates, x)
    }

    /// No instant that was collected from a set over a fixed zone is an
    /// explicit excluded instant or handed out by an exclusion rule.
    pub proof fn lemma_collected_not_excluded(&self, dates: Seq<Instant>, limited: bool, k: int)
        requires
            self.collected(dates, limited),
            0 <= k < dates.len(),
        ensures
            !has_ts(self.exdate@, dates[k].ts),
            !any_rule_emits(self.exrule@, self.dt_start, dates[k].ts as int),
    {
    }

    /// Every instant that is to be included lies in the supported range.
    pub proof fn lemma_included_in_range(&self, x: i64)
        requires
            self.wf(),
            self.is_included(x),
        ensures
            MIN_TS <= x <= MAX_TS,
    {
        if any_rule_emits(self.rrule@, self.dt_start, x as int) {
            let w = choose|w: int|
                0 <= w < self.rrule@.len() && rule_emits(
                    #[trigger] self.rrule@[w]@,
                    self.dt_start,
                    x as int,
                );
            let c = rule_config(self.rrule@[w]@, self.dt_start.tz);
            let s0 = rule_start(self.rrule@[w]@, self.dt_start);
            let j = choose|j: nat| pull(c, s0, j) == Some(x as int);
            lemma_emitted_above_floor(c, s0, j);
        }
    }

    /// What was gathered up to a floor, with nothing missing and the merge
    /// not giving up before it, is what collecting gives, once the merge
    /// gave up at the floor, nothing is left, or enough was gathered.
    pub proof fn lemma_gathered(&self, dates: Seq<Instant>, cap: int, floor: i64, limited: bool)
        requires
            dates.len() <= cap,
            dates.len() == cap ==> limited,
            ascending(dates),
            forall|k: int|
                0 <= k < dates.len() ==> (#[trigger] dates[k]).wf() && self.in_window(dates[k].ts)
                    && dates[k].ts <= floor && self.content().occurs(dates[k].ts)
                    && self.content().shows(dates[k]),
            self.content().holds_up_to(self.after, self.before, dates, floor as int),
            forall|f: i64|
                self.content().comes_to(self.before, f) && f < floor
                    ==> !#[trigger] self.content().gives_up_behind(100000, f as int),
            dates.len() < cap && limited ==> self.content().comes_to(self.before, floor)
                && self.content().gives_up_behind(100000, floor as int),
            dates.len() < cap && !limited ==> forall|f: i64|
                self.content().comes_to(self.before, f) ==> !#[trigger] self.content().gives_up_behind(
                    100000,
                    f as int,
                ),
            dates.len() < cap && !limited ==> forall|x: i64| #[trigger]
                self.content().occurs(x) && self.in_window(x) ==> has_ts(dates, x),
        ensures
            limited <==> dates.len() == cap || self.content().gives_up(self.before, 100000),
            self.content().window_result(self.after, self.before, cap, 100000, dates),
    {
        let sp = self.content();
        if dates.len() < cap && limited {
            assert(sp.gives_up_first_at(self.before, 100000, floor));
        }
    }

    /// The count of the rule that is the one source of the set, if the set
    /// has one rule and no explicit instant and the rule has a count.
    pub open spec fn lone_count(&self) -> Option<u32> {
        if self.rrule@.len() == 1 && self.rdate@.len() == 0 {
            self.rrule@[0].count
        } else {
            None
        }
    }

    /// Collects the instants of the set that lie in its window, in
    /// ascending order, up to `limit` of them. The result is marked as
    /// limited when `limit` instants were collected or the merge gave up.
    /// Over a fixed zone the merge gives up just when the set says so, and
    /// the instants are those that the set has in the window.
    #[verifier::rlimit(100)]
    pub fn all(self, limit: u16) -> (r: RRuleResult)
        requires
            self.wf(),
        ensures
            r.dates@.len() <= limit,
            r.dates@.len() == limit ==> r.limited,
            self.exrule@.len() == 0 && self.exdate@.len() == 0 ==> (r.limited <==> r.dates@.len()
                == limit),
            ascending(r.dates@),
            forall|k: int|
                0 <= k < r.dates@.len() ==> (#[trigger] r.dates@[k]).wf() && self.in_window(
                    r.dates@[k].ts,
                ) && !has_ts(self.exdate@, r.dates@[k].ts) && self.content().from_source(
                    r.dates@[k],
                ),
            self.lone_count() matches Some(c) ==> r.dates@.len() <= c,
            self.exrule@.len() == 0 ==> forall|x: i64| #[trigger]
                has_ts(self.rdate@, x) && self.in_window(x) && !has_ts(self.exdate@, x) && (
                r.limited ==> r.dates@.len() > 0 && x <= r.dates@.last().ts) ==> has_ts(
                    r.dates@,
                    x,
                ),
            self.dt_start.tz.is_fixed() ==> self.collected(r.dates@, r.limited),
            self.dt_start.tz.is_fixed() ==> (r.limited <==> r.dates@.len() == limit
                || self.content().gives_up(self.before, 100000)),
            self.dt_start.tz.is_fixed() ==> self.content().window_result(
                self.after,
                self.before,
                limit as int,
                100000,
                r.dates@,
            ),
    {
        let mut it = self.into_iter();
        let ghost it0 = it;
        let ghost fixed = self.dt_start.tz.is_fixed();
        let ghost sp = self.content();
        let mut dates: Vec<Instant> = Vec::new();
        let mut limited: bool = false;
        let mut done: bool = false;
        let cap: usize = limit as usize;
        proof {
            assert forall|x: i64| #[trigger] self.occurs(x) && self.in_window(x) && x
                <= it.floor implies has_ts(dates@, x) by {
                self.lemma_included_in_range(x);
            }
            assert forall|x: i64| self.occurs(x) == #[trigger] sp.occurs(x) by {
                self.lemma_occurs_by_content(x);
            }
            assert forall|f: i64| sp.comes_to(self.before, f) && f < it.floor implies !#[trigger] sp.gives_up_behind(
                100000,
                f as int,
            ) by {
                self.lemma_included_in_range(f);
            }
        }
        while !done && dates.len() < cap
            invariant
                it.wf(),
                it.same_setup(&it0),
                forall|x: i64| it0.occurs(x) == self.occurs(x),
                forall|x: i64| self.occurs(x) == #[trigger] sp.occurs(x),
                forall|x: i64| it0.explicit@.contains(x) == has_ts(self.exdate@, x),
                it0.dt_start == self.dt_start,
                sp == self.content(),
                it.rules() == sp.rrule,
                it.given@ == waiting_of(sp.rdate),
                it.explicit@ == explicit_of(sp.exdate),
                it.limit == 100000,
                fixed == self.dt_start.tz.is_fixed(),
                cap == limit,
                dates@.len() <= cap,
                ascending(dates@),
                forall|k: int|
                    0 <= k < dates@.len() ==> (#[trigger] dates@[k]).wf() && self.in_window(
                        dates@[k].ts,
                    ) && !has_ts(self.exdate@, dates@[k].ts) && dates@[k].ts <= it.floor
                        && sp.from_source(dates@[k]),
                fixed ==> forall|k: int|
                    0 <= k < dates@.len() ==> self.occurs((#[trigger] dates@[k]).ts) && sp.shows(
                        dates@[k],
                    ),
                fixed ==> forall|x: i64| #[trigger]
                    self.occurs(x) && self.in_window(x) && x <= it.floor ==> has_ts(dates@, x),
                fixed && done && !limited ==> forall|x: i64| #[trigger]
                    self.occurs(x) && self.in_window(x) ==> has_ts(dates@, x),
                fixed ==> forall|f: i64|
                    sp.comes_to(self.before, f) && f < it.floor ==> !#[trigger] sp.gives_up_behind(
                        100000,
                        f as int,
                    ),
                fixed && !done ==> sp.comes_to(self.before, it.floor),
                fixed && done && limited ==> sp.comes_to(self.before, it.floor)
                    && sp.gives_up_behind(100000, it.floor as int),
                fixed && done && !limited ==> forall|f: i64|
                    sp.comes_to(self.before, f) ==> !#[trigger] sp.gives_up_behind(
                        100000,
                        f as int,
                    ),
                it0.exrules == &self.exrule,
                it.given@ == waiting_of(self.rdate@),
                self.exrule@.len() == 0 ==> it.exrules@.len() == 0 && forall|k: int|
                    0 <= k < it.given@.len() && (#[trigger] it.given@[k]).ts <= it.floor
                        && self.in_window(it.given@[k].ts) && !has_ts(
                        self.exdate@,
                        it.given@[k].ts,
                    ) ==> has_ts(dates@, it.given@[k].ts),
                self.exrule@.len() == 0 && done && !limited ==> forall|k: int|
                    0 <= k < it.given@.len() && self.in_window((#[trigger] it.given@[k]).ts)
                        && !has_ts(self.exdate@, it.given@[k].ts) ==> has_ts(
                        dates@,
                        it.given@[k].ts,
                    ),
                self.lone_count() matches Some(c) ==> it.rrule_iters@.len() == 1 && it.given@.len()
                    == 0 && it.rrule_iters@[0].left is Some && dates@.len() + it.room(0) <= c,
                !done ==> it.error is None && !limited,
                self.exrule@.len() == 0 && self.exdate@.len() == 0 ==> !limited,
            decreases
                    if done {
                        0
                    } else {
                        MAX_TS - it.floor + 1
                    },
        {
            let ghost was = it;
            let ghost before = dates@;
            let got = it.next();
            proof {
                it.lemma_same_setup_trans(&was, &it0);
                assert forall|x: i64| was.occurs(x) == self.occurs(x) by {
                    was.lemma_same_setup_occurs(&it0, x);
                }
                assert(was.gives_up_behind(was.floor as int) == sp.gives_up_behind(
                    100000,
                    was.floor as int,
                ));
            }
            match got {
                None => {
                    limited = it.has_err();
                    done = true;
                    proof {
                        if self.exrule@.len() == 0 && self.exdate@.len() == 0 && limited {
                            let x = choose|x: i64| it.exdates@.contains(x);
                        }
                        if fixed && !limited {
                            assert forall|x: i64| #[trigger]
                                self.occurs(x) && self.in_window(x) implies has_ts(dates@, x) by {}
                            assert forall|f: i64| sp.comes_to(self.before, f) implies !#[trigger] sp.gives_up_behind(
                                100000,
                                f as int,
                            ) by {}
                        }
                    }
                },
                Some(d) => {
                    let early: bool = match self.after {
                        Some(a) => d.ts < a.ts,
                        None => false,
                    };
                    let late: bool = match self.before {
                        Some(b) => d.ts >= b.ts,
                        None => false,
                    };
                    if late {
                        done = true;
                    } else if !early {
                        dates.push(d);
                    }
                    proof {
                        was.lemma_same_setup_occurs(&it0, d.ts);
                        assert forall|x: i64| has_ts(before, x) implies has_ts(dates@, x) by {
                            lemma_has_ts_push(before, d, x);
                        }
                        if self.exrule@.len() == 0 {
                            assert forall|k: int|
                                0 <= k < it.given@.len() && (#[trigger] it.given@[k]).ts
                                    <= it.floor && self.in_window(it.given@[k].ts) && !has_ts(
                                    self.exdate@,
                                    it.given@[k].ts,
                                ) implies has_ts(dates@, it.given@[k].ts) by {
                                let x = it.given@[k].ts;
                                if !(x <= was.floor) && (x == d.ts) {
                                    lemma_has_ts_push(before, d, x);
                                }
                            }
                        }
                        if fixed {
                            assert forall|x: i64| #[trigger]
                                self.occurs(x) && self.in_window(x) && x <= it.floor implies has_ts(
                                dates@,
                                x,
                            ) by {
                                if x == d.ts {
                                    lemma_has_ts_push(before, d, x);
                                }
                            }
                            assert forall|f: i64|
                                sp.comes_to(self.before, f) && f < d.ts implies !#[trigger] sp.gives_up_behind(
                                100000,
                                f as int,
                            ) by {}
                            if late {
                                assert forall|x: i64| #[trigger]
                                    self.occurs(x) && self.in_window(x) implies has_ts(
                                    dates@,
                                    x,
                                ) by {}
                            }
                        }
                    }
                },
            }
        }
        if dates.len() == cap {
            limited = true;
        }
        proof {
            if fixed {
                self.lemma_gathered(dates@, limit as int, it.floor, limited);
            }
            if self.exrule@.len() == 0 {
                lemma_waiting_of(self.rdate@);
                assert forall|x: i64| #[trigger]
                    has_ts(self.rdate@, x) && self.in_window(x) && !has_ts(self.exdate@, x) && (
                    limited ==> dates@.len() > 0 && x <= dates@.last().ts) implies has_ts(
                    dates@,
                    x,
                ) by {}
            }
        }
        RRuleResult { dates, limited }
    }
}

} // verus!
