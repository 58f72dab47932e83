//! The stage sequencer: from the logarithm of the array's length to the
//! ordered list of dispatches that sorts it.

use vstd::prelude::*;
use crate::params::{StageParameters, entry_at};

verus! {

/// The number of entries of the first `stages` stages: `stages (stages + 1) / 2`.
pub open spec fn triangular(stages: nat) -> nat {
    stages * (stages + 1) / 2
}

/// The entries of one stage, in the order of their steps.
pub open spec fn stage_entries(log_len: u32, num_stage: nat) -> Seq<StageParameters> {
    Seq::new(num_stage, |num_step: int| entry_at(log_len, num_stage as int, num_step))
}

/// The entries of stages `1..=stages`, stage after stage.
pub open spec fn plan_prefix(log_len: u32, stages: nat) -> Seq<StageParameters>
    decreases stages,
{
    if stages == 0 {
        Seq::empty()
    } else {
        plan_prefix(log_len, (stages - 1) as nat) + stage_entries(log_len, stages)
    }
}

/// The whole plan for an array of `2^log_len` elements.
pub open spec fn plan_entries(log_len: u32) -> Seq<StageParameters> {
    plan_prefix(log_len, log_len as nat)
}

/// `triangular` grows by the number of the stage that is added.
pub proof fn lemma_triangular_step(stages: nat)
    ensures
        triangular(stages + 1) == triangular(stages) + stages + 1,
        triangular(0) == 0,
{
    assert((stages + 1) * (stages + 2) == stages * (stages + 1) + 2 * (stages + 1))
        by (nonlinear_arith);
}

/// The first `stages` stages hold `stages (stages + 1) / 2` entries.
pub proof fn lemma_plan_prefix_len(log_len: u32, stages: nat)
    ensures
        plan_prefix(log_len, stages).len() == triangular(stages),
    decreases stages,
{
    if stages > 0 {
        lemma_plan_prefix_len(log_len, (stages - 1) as nat);
        lemma_triangular_step((stages - 1) as nat);
    } else {
        lemma_triangular_step(0);
    }
}

/// A plan has exactly `k (k + 1) / 2` entries.
pub proof fn lemma_plan_len(log_len: u32)
    ensures
        plan_entries(log_len).len() == log_len * (log_len + 1) / 2,
{
    lemma_plan_prefix_len(log_len, log_len as nat);
}

/// Where an entry stands: step `num_step` of stage `num_stage` is at index
/// `triangular(num_stage - 1) + num_step`, in every prefix that holds the
/// stage.
pub proof fn lemma_plan_prefix_index(log_len: u32, stages: nat, num_stage: nat, num_step: nat)
    requires
        1 <= num_stage <= stages,
        num_step < num_stage,
    ensures
        triangular((num_stage - 1) as nat) + num_step < plan_prefix(log_len, stages).len(),
        plan_prefix(log_len, stages)[(triangular((num_stage - 1) as nat) + num_step) as int] == entry_at(
            log_len,
            num_stage as int,
            num_step as int,
        ),
    decreases stages,
{
    lemma_plan_prefix_len(log_len, stages);
    lemma_plan_prefix_len(log_len, (stages - 1) as nat);
    lemma_triangular_step((stages - 1) as nat);
    if num_stage < stages {
        lemma_plan_prefix_index(log_len, (stages - 1) as nat, num_stage, num_step);
    }
}

/// Every index of a prefix belongs to one step of one stage.
pub proof fn lemma_plan_prefix_stage_of(log_len: u32, stages: nat, index: int) -> (at: (nat, nat))
    requires
        0 <= index < plan_prefix(log_len, stages).len(),
    ensures
        1 <= at.0 <= stages,
        at.1 < at.0,
        index == triangular((at.0 - 1) as nat) + at.1,
        plan_prefix(log_len, stages)[index] == entry_at(log_len, at.0 as int, at.1 as int),
    decreases stages,
{
    lemma_plan_prefix_len(log_len, stages);
    if stages == 0 {
        (0, 0)
    } else {
        lemma_plan_prefix_len(log_len, (stages - 1) as nat);
        lemma_triangular_step((stages - 1) as nat);
        if index < triangular((stages - 1) as nat) {
            lemma_plan_prefix_stage_of(log_len, (stages - 1) as nat, index)
        } else {
            (stages, (index - triangular((stages - 1) as nat)) as nat)
        }
    }
}

/// Where an entry stands in the whole plan: step `num_step` of stage
/// `num_stage` is at index `(num_stage - 1) num_stage / 2 + num_step`, with
/// `log_group_init = log_len - num_stage` and
/// `log_group_curr = log_group_init + num_step`.
pub proof fn lemma_plan_index(log_len: u32, num_stage: nat, num_step: nat)
    requires
        1 <= num_stage <= log_len,
        num_step < num_stage,
    ensures
        triangular((num_stage - 1) as nat) + num_step < plan_entries(log_len).len(),
        plan_entries(log_len)[(triangular((num_stage - 1) as nat) + num_step) as int]
            == (StageParameters {
            log_len,
            log_group_init: (log_len - num_stage) as u32,
            log_group_curr: (log_len - num_stage + num_step) as u32,
        }),
{
    lemma_plan_prefix_index(log_len, log_len as nat, num_stage, num_step);
}

/// Every entry of a plan carries the plan's `log_len` and lies in range:
/// `0 <= log_group_init <= log_group_curr <= log_len - 1`.
pub proof fn lemma_plan_entries_in_range(log_len: u32, index: int)
    requires
        0 <= index < plan_entries(log_len).len(),
    ensures
        plan_entries(log_len)[index].log_len == log_len,
        plan_entries(log_len)[index].in_range(),
{
    let at = lemma_plan_prefix_stage_of(log_len, log_len as nat, index);
}

/// The ordered list of dispatches for one array size. It is made by
/// `StageSequencer::compute` and cannot be changed afterwards.
#[derive(Debug)]
pub struct DispatchPlan {
    log_len: u32,
    entries: Vec<StageParameters>,
}

impl View for DispatchPlan {
    type V = Seq<StageParameters>;

    closed spec fn view(&self) -> Seq<StageParameters> {
        self.entries@
    }
}

impl DispatchPlan {
    /// The logarithm of the array length the plan was made for.
    pub closed spec fn spec_log_len(self) -> u32 {
        self.log_len
    }

    #[verifier::type_invariant]
    closed spec fn plan_matches(self) -> bool {
        self.entries@ == plan_entries(self.log_len)
    }

    /// The logarithm of the array length the plan was made for. Reading it
    /// also recalls what a plan is: the entries of that `log_len`, in order.
    pub fn log_len(&self) -> (k: u32)
        ensures
            k == self.spec_log_len(),
            self@ == plan_entries(k),
    {
        proof {
            use_type_invariant(self);
        }
        self.log_len
    }

    /// The number of dispatches: `k (k + 1) / 2`.
    pub fn len(&self) -> (n: usize)
        ensures
            n == self@.len(),
            n == self.spec_log_len() * (self.spec_log_len() + 1) / 2,
    {
        proof {
            use_type_invariant(self);
            lemma_plan_len(self.log_len);
        }
        self.entries.len()
    }

    /// Whether the plan holds no dispatch, which is so for `k == 0` only.
    pub fn is_empty(&self) -> (b: bool)
        ensures
            b == (self@.len() == 0),
            b == (self.spec_log_len() == 0),
    {
        proof {
            use_type_invariant(self);
            lemma_plan_len(self.log_len);
            assert(self.log_len > 0 ==> self.log_len * (self.log_len + 1) / 2 > 0) by (nonlinear_arith);
        }
        self.entries.len() == 0
    }

    /// The entry at `index`, or `None` past the end.
    pub fn get(&self, index: usize) -> (entry: Option<StageParameters>)
        ensures
            index < self@.len() ==> entry == Some(self@[index as int]),
            index >= self@.len() ==> entry.is_none(),
            entry matches Some(p) ==> p.log_len == self.spec_log_len() && p.in_range(),
    {
        proof {
            use_type_invariant(self);
        }
        if index < self.entries.len() {
            proof {
                lemma_plan_entries_in_range(self.log_len, index as int);
            }
            Some(self.entries[index])
        } else {
            None
        }
    }

    /// All entries, in the order in which they are to be dispatched.
    pub fn entries(&self) -> (all: &Vec<StageParameters>)
        ensures
            all@ == self@,
            all@ == plan_entries(self.spec_log_len()),
    {
        proof {
            use_type_invariant(self);
        }
        &self.entries
    }
}

/// Computes plans. It holds no state: a plan depends on `k` alone.
pub struct StageSequencer;

impl StageSequencer {
    /// The plan for an array of `2^log_len` elements: for each stage from 1 to
    /// `log_len`, the steps from 0 to the stage's number less one. `log_len == 0`
    /// gives the empty plan.
    pub fn compute(log_len: u32) -> (plan: DispatchPlan)
        ensures
            plan@ == plan_entries(log_len),
            plan.spec_log_len() == log_len,
            plan@.len() == log_len * (log_len + 1) / 2,
    {
        let mut entries: Vec<StageParameters> = Vec::new();
        let mut done: u32 = 0;
        while done < log_len
            invariant
                done <= log_len,
                entries@ == plan_prefix(log_len, done as nat),
            decreases log_len - done,
        {
            let num_stage: u32 = done + 1;
            let mut num_step: u32 = 0;
            while num_step < num_stage
                invariant
                    num_stage == done + 1,
                    num_stage <= log_len,
                    num_step <= num_stage,
                    entries@ == plan_prefix(log_len, done as nat) + stage_entries(
                        log_len,
                        num_stage as nat,
                    ).take(num_step as int),
                decreases num_stage - num_step,
            {
                entries.push(StageParameters::for_step(log_len, num_stage, num_step));
                num_step = num_step + 1;
            }
            done = num_stage;
        }
        proof {
            lemma_plan_len(log_len);
        }
        DispatchPlan { log_len, entries }
    }
}

} // verus!
