//! When a source of a merge gives up: too many of its candidates in a row
//! are excluded.

use vstd::prelude::*;

use crate::error::RRuleError;
use crate::instant::Instant;
use crate::iter::{IterConfig, IterState};
use crate::rruleset_iter::{cache_kept, date_outcome, excluded, guard, pull_outcome};
use crate::rule::{RRule, RuleSpec};
use crate::sequence::{after, any_spec_emits, pull, rule_config, rule_start};
use crate::set::{lemma_emits_by_content, views};

verus! {

/// The second `x` is excluded: it is one of the explicit excluded seconds,
/// or an exclusion rule hands it out.
pub open spec fn shut_out(
    explicit: Set<i64>,
    exrules: Seq<RuleSpec>,
    dt_start: Instant,
    x: int,
) -> bool {
    i64::MIN <= x <= i64::MAX && (explicit.contains(x as i64) || any_spec_emits(
        exrules,
        dt_start,
        x,
    ))
}

/// From where the generator stands, each of its next `n` pulls hands out an
/// instant that is excluded.
pub open spec fn run_excluded(
    c: IterConfig,
    s: IterState,
    n: int,
    explicit: Set<i64>,
    exrules: Seq<RuleSpec>,
    dt_start: Instant,
) -> bool {
    forall|j: nat|
        j < n ==> (#[trigger] pull(c, s, j) matches Some(x) && shut_out(
            explicit,
            exrules,
            dt_start,
            x,
        ))
}

/// The first `k` pulls of a generator hand out instants up to `f`, and the
/// pull after them hands out a later one or nothing.
pub open spec fn stands_at(c: IterConfig, s: IterState, k: nat, f: int) -> bool {
    &&& forall|j: nat| j < k ==> (#[trigger] pull(c, s, j) matches Some(x) && x <= f)
    &&& (pull(c, s, k) matches Some(x) ==> x > f)
}

/// The rule gives up behind `f`: the first `g` instants later than `f` that
/// it hands out are all excluded.
pub open spec fn rule_gives_up(
    rule: RuleSpec,
    dt_start: Instant,
    f: int,
    g: int,
    explicit: Set<i64>,
    exrules: Seq<RuleSpec>,
) -> bool {
    exists|k: nat| #[trigger]
        stands_at(rule_config(rule, dt_start.tz), rule_start(rule, dt_start), k, f)
            && run_excluded(
            rule_config(rule, dt_start.tz),
            after(rule_config(rule, dt_start.tz), rule_start(rule, dt_start), k),
            g,
            explicit,
            exrules,
            dt_start,
        )
}

/// Of the instants of a descending list, exactly the first `n` are later
/// than `f`.
pub open spec fn dates_stand_at(given: Seq<Instant>, n: int, f: int) -> bool {
    &&& 0 <= n <= given.len()
    &&& forall|k: int| 0 <= k < n ==> (#[trigger] given[k]).ts > f
    &&& forall|k: int| n <= k < given.len() ==> (#[trigger] given[k]).ts <= f
}

/// More than `g` instants are among the first `n` of a list, and the last
/// `g` of them are all excluded.
pub open spec fn tail_excluded(
    given: Seq<Instant>,
    n: int,
    g: int,
    explicit: Set<i64>,
    exrules: Seq<RuleSpec>,
    dt_start: Instant,
) -> bool {
    &&& g < n <= given.len()
    &&& forall|k: int|
        n - g <= k < n ==> shut_out(explicit, exrules, dt_start, (#[trigger] given[k]).ts as int)
}

/// The explicit instants, latest first, give up behind `f`: more than `g`
/// of them are later than `f`, and the `g` earliest of those are all
/// excluded.
pub open spec fn dates_give_up(
    given: Seq<Instant>,
    f: int,
    g: int,
    explicit: Set<i64>,
    exrules: Seq<RuleSpec>,
    dt_start: Instant,
) -> bool {
    exists|n: int| #[trigger]
        dates_stand_at(given, n, f) && tail_excluded(given, n, g, explicit, exrules, dt_start)
}

/// A merge that has handed out everything up to `f` gives up at its next
/// step: one of its rules does, or its explicit instants do.
pub open spec fn gives_up_at(
    rules: Seq<RuleSpec>,
    given: Seq<Instant>,
    explicit: Set<i64>,
    exrules: Seq<RuleSpec>,
    dt_start: Instant,
    g: int,
    f: int,
) -> bool {
    (exists|i: int|
        0 <= i < rules.len() && rule_gives_up(
            #[trigger] rules[i],
            dt_start,
            f,
            g,
            explicit,
            exrules,
        )) || dates_give_up(given, f, g, explicit, exrules, dt_start)
}

/// Being excluded is the same whether the exclusion rules are taken as
/// they are or by their content.
pub proof fn lemma_shut_out(explicit: Set<i64>, exrules: Seq<RRule>, dt_start: Instant, x: i64)
    ensures
        shut_out(explicit, views(exrules), dt_start, x as int) == excluded(
            explicit,
            exrules,
            dt_start,
            x,
        ),
{
    lemma_emits_by_content(exrules, dt_start, x as int);
}

/// `generate` ends in an error exactly when, from where the generator
/// stood, as many pulls as the guard allows each hand out an excluded
/// instant.
pub proof fn lemma_generate_gives_up(
    c: IterConfig,
    s: IterState,
    m: nat,
    last: IterState,
    cache: Set<i64>,
    explicit: Set<i64>,
    exrules: Seq<RRule>,
    dt_start: Instant,
    limit: u32,
    r: Result<Option<Instant>, RRuleError>,
)
    requires
        dt_start.tz.is_fixed(),
        pull_outcome(c, s, m, last, cache, exrules, dt_start, limit, r),
        cache_kept(explicit, cache, exrules, dt_start),
    ensures
        (r is Err) == run_excluded(c, s, guard(limit), explicit, views(exrules), dt_start),
{
    reveal(pull_outcome);
    let sp = views(exrules);
    if r is Err {
        assert forall|j: nat| j < guard(limit) implies (#[trigger] pull(c, s, j) matches Some(x)
            && shut_out(explicit, sp, dt_start, x)) by {
            let x = pull(c, s, j)->0;
            lemma_shut_out(explicit, exrules, dt_start, x as i64);
        }
    } else {
        match pull(c, s, m) {
            Some(x) => {
                lemma_shut_out(explicit, exrules, dt_start, x as i64);
            },
            None => {},
        }
    }
}

/// `generate_date` ends in an error exactly when more instants wait than
/// the guard allows and the last ones, as many as it allows, are all
/// excluded.
pub proof fn lemma_dates_give_up(
    waiting: Seq<Instant>,
    rest: Seq<Instant>,
    cache: Set<i64>,
    explicit: Set<i64>,
    exrules: Seq<RRule>,
    dt_start: Instant,
    limit: u32,
    r: Result<Option<Instant>, RRuleError>,
)
    requires
        dt_start.tz.is_fixed(),
        date_outcome(waiting, rest, cache, exrules, dt_start, limit, r),
        cache_kept(explicit, cache, exrules, dt_start),
    ensures
        (r is Err) == tail_excluded(
            waiting,
            waiting.len() as int,
            guard(limit),
            explicit,
            views(exrules),
            dt_start,
        ),
{
    let sp = views(exrules);
    let n = waiting.len() as int;
    let g = guard(limit);
    if r is Err {
        assert forall|k: int| n - g <= k < n implies shut_out(
            explicit,
            sp,
            dt_start,
            (#[trigger] waiting[k]).ts as int,
        ) by {
            lemma_shut_out(explicit, exrules, dt_start, waiting[k].ts);
        }
    } else {
        match r {
            Ok(Some(d)) => {
                lemma_shut_out(explicit, exrules, dt_start, d.ts);
            },
            _ => {},
        }
    }
}

} // verus!
