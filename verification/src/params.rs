//! The parameter block of one comparator dispatch.

use vstd::prelude::*;

verus! {

/// What one dispatch of the comparator kernel is told: the logarithm of the
/// array's length, the logarithm of the number of groups at the start of the
/// current stage, and the logarithm of the number of groups in the current
/// step.
#[derive(Clone, Copy, Debug, PartialEq, Eq, Structural)]
pub struct StageParameters {
    pub log_len: u32,
    pub log_group_init: u32,
    pub log_group_curr: u32,
}

impl StageParameters {
    /// The ranges every entry of a plan lies in:
    /// `0 <= log_group_init <= log_group_curr <= log_len - 1`.
    pub open spec fn in_range(self) -> bool {
        &&& self.log_group_init <= self.log_group_curr
        &&& self.log_group_curr < self.log_len
    }

    /// The stage this entry belongs to, counted from 1.
    pub open spec fn stage(self) -> int {
        self.log_len - self.log_group_init
    }

    /// The step within its stage, counted from 0.
    pub open spec fn step(self) -> int {
        self.log_group_curr - self.log_group_init
    }

    /// The three words in the order the kernel reads them.
    pub open spec fn words(self) -> Seq<u32> {
        seq![self.log_len, self.log_group_init, self.log_group_curr]
    }

    /// Builds the entry of step `num_step` of stage `num_stage`.
    pub fn for_step(log_len: u32, num_stage: u32, num_step: u32) -> (p: StageParameters)
        requires
            1 <= num_stage <= log_len,
            num_step < num_stage,
        ensures
            p == entry_at(log_len, num_stage as int, num_step as int),
            p.in_range(),
    {
        let log_group_init: u32 = log_len - num_stage;
        StageParameters { log_len, log_group_init, log_group_curr: log_group_init + num_step }
    }

    /// Whether the entry lies in the ranges of `in_range`.
    pub fn is_in_range(&self) -> (b: bool)
        ensures
            b == self.in_range(),
    {
        self.log_group_init <= self.log_group_curr && self.log_group_curr < self.log_len
    }
}

/// The entry of step `num_step` (from 0) of stage `num_stage` (from 1) for an
/// array of `2^log_len` elements.
pub open spec fn entry_at(log_len: u32, num_stage: int, num_step: int) -> StageParameters {
    StageParameters {
        log_len,
        log_group_init: (log_len - num_stage) as u32,
        log_group_curr: (log_len - num_stage + num_step) as u32,
    }
}

} // verus!
