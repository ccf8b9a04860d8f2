//! Runs of a merge: what holds of every sequence of calls of `next`.

use vstd::prelude::*;

use crate::instant::Instant;
use crate::rruleset_iter::RRuleSetIter;

verus! {

impl<'a> RRuleSetIter<'a> {
    /// A run of a merge: each state comes from the one before it by one
    /// call of `next`, which handed out what `outs` has at that place.
    pub open spec fn run(states: Seq<RRuleSetIter<'a>>, outs: Seq<Option<Instant>>) -> bool {
        &&& states.len() == outs.len() + 1
        &&& forall|i: int|
            0 <= i < outs.len() ==> Self::stepped(&states[i], &states[i + 1], #[trigger] outs[i])
    }

    /// In a run the setup stays and the floor never falls.
    pub proof fn lemma_run_goes_on(
        states: Seq<RRuleSetIter<'a>>,
        outs: Seq<Option<Instant>>,
        i: int,
        j: int,
    )
        requires
            Self::run(states, outs),
            0 <= i <= j < states.len(),
        ensures
            states[j].same_setup(&states[i]),
            states[i].floor <= states[j].floor,
            states[i].error is Some ==> states[j].error == states[i].error,
        decreases j - i,
    {
        if i < j {
            Self::lemma_run_goes_on(states, outs, i, j - 1);
            assert(Self::stepped(&states[j - 1], &states[j], outs[j - 1]));
            states[j].lemma_same_setup_trans(&states[j - 1], &states[i]);
        } else {
            assert forall|k: int| 0 <= k < states[i].rrule_iters@.len() implies (
            #[trigger] states[i].rrule_iters@[k]).rule == states[i].rrule_iters@[k].rule by {}
        }
    }

    /// The instants of a run come in strictly ascending order, so none
    /// comes twice.
    pub proof fn lemma_run_ascends(
        states: Seq<RRuleSetIter<'a>>,
        outs: Seq<Option<Instant>>,
        i: int,
        j: int,
    )
        requires
            Self::run(states, outs),
            0 <= i < j < outs.len(),
            outs[i] is Some,
            outs[j] is Some,
        ensures
            outs[i]->0.ts < outs[j]->0.ts,
    {
        Self::lemma_run_goes_on(states, outs, i + 1, j);
    }

    /// No instant of a run is excluded: none is at an explicit excluded
    /// second and, over a fixed zone, none is handed out by an exclusion
    /// rule.
    pub proof fn lemma_run_excludes(
        states: Seq<RRuleSetIter<'a>>,
        outs: Seq<Option<Instant>>,
        i: int,
    )
        requires
            Self::run(states, outs),
            0 <= i < outs.len(),
            outs[i] is Some,
        ensures
            states[0].not_excluded(outs[i]->0.ts),
    {
        Self::lemma_run_goes_on(states, outs, 0, i);
        states[i].lemma_same_setup_occurs(&states[0], outs[i]->0.ts);
    }

    /// Once a run has kept an error, it hands out nothing more.
    pub proof fn lemma_run_stays_failed(
        states: Seq<RRuleSetIter<'a>>,
        outs: Seq<Option<Instant>>,
        i: int,
        j: int,
    )
        requires
            Self::run(states, outs),
            0 <= i <= j < outs.len(),
            states[i].error is Some,
        ensures
            outs[j] is None,
            states[j + 1].error == states[i].error,
    {
        Self::lemma_run_goes_on(states, outs, i, j);
    }

    /// Two runs over a fixed zone that start with the same setup at the
    /// same place hand out the same, call for call: a merge that is started
    /// again repeats the first.
    pub proof fn lemma_runs_agree(
        first: Seq<RRuleSetIter<'a>>,
        outs: Seq<Option<Instant>>,
        second: Seq<RRuleSetIter<'a>>,
        again: Seq<Option<Instant>>,
        k: int,
    )
        requires
            Self::run(first, outs),
            Self::run(second, again),
            first[0].same_setup(&second[0]),
            first[0].floor == second[0].floor,
            first[0].error == second[0].error,
            first[0].dt_start.tz.is_fixed(),
            0 <= k < outs.len(),
            k < again.len(),
        ensures
            outs[k] == again[k],
            first[k + 1].same_setup(&second[k + 1]),
            first[k + 1].floor == second[k + 1].floor,
            first[k + 1].error == second[k + 1].error,
        decreases k,
    {
        if k > 0 {
            Self::lemma_runs_agree(first, outs, second, again, k - 1);
        }
        Self::lemma_run_goes_on(first, outs, 0, k);
        Self::lemma_steps_agree(
            &first[k],
            &first[k + 1],
            outs[k],
            &second[k],
            &second[k + 1],
            again[k],
        );
    }
}

} // verus!
