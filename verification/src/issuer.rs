//! The dispatch issuer: which dispatch to submit next.
//!
//! The issuer owns the decisions and none of the work. Whoever drives the
//! backend tells it what happened, as an event, and does what it answers, an
//! action. A dispatch is handed out only in answer to the completion of the
//! one before it, so no two are ever in flight on the same array and none is
//! skipped or reordered.

use vstd::prelude::*;
use vstd::arithmetic::power2::{pow2, lemma_pow2_pos};
use crate::error::SortError;
use crate::grid::{dispatch_grid, grid_of};
use crate::length::{fits, is_power_of_two, log_len_of, lemma_log_len_unique};
use crate::params::StageParameters;
use crate::sequencer::{DispatchPlan, StageSequencer, plan_entries, lemma_plan_entries_in_range};

verus! {

/// What the driver of the backend reports.
#[derive(Clone, Copy, Debug, PartialEq, Eq, Structural)]
pub enum IssuerEvent {
    /// Device, queue, kernel and buffers are there.
    BackendReady,
    /// No accelerator, or the kernel did not build.
    BackendFailed,
    /// The dispatch that was submitted last has run to its end.
    DispatchCompleted,
    /// The dispatch that was submitted last failed.
    DispatchFailed,
}

/// Where a sort stands.
#[derive(Clone, Copy, Debug, PartialEq, Eq, Structural)]
pub enum IssuerPhase {
    /// Nothing was submitted yet; the backend has not reported.
    AwaitingBackend,
    /// The entry at `index` was submitted and has not completed.
    InFlight { index: usize },
    /// Every entry ran, in order.
    Finished,
    /// The sort was given up.
    Failed { error: SortError },
}

/// What the driver is to do next.
#[derive(Clone, Copy, Debug, PartialEq, Eq)]
pub enum IssuerAction {
    /// Upload `params` as the parameter block, then launch the kernel once
    /// over `grid`, and report how it ended.
    Submit { index: usize, params: StageParameters, grid: (u32, u32, u32) },
    /// The array is sorted; read it back or hand it on.
    Finished,
    /// Stop and report `error`.
    Abort { error: SortError },
    /// The event does not belong to the phase; nothing changes.
    Ignored,
}

/// The action that submits the entry at `index` of the plan for `log_len`.
pub open spec fn submit_at(log_len: u32, index: int) -> IssuerAction {
    IssuerAction::Submit {
        index: index as usize,
        params: plan_entries(log_len)[index],
        grid: (
            grid_of(log_len as nat).0 as u32,
            grid_of(log_len as nat).1 as u32,
            grid_of(log_len as nat).2 as u32,
        ),
    }
}

/// The phase after `event`.
pub open spec fn next_phase(log_len: u32, phase: IssuerPhase, event: IssuerEvent) -> IssuerPhase {
    let count = plan_entries(log_len).len();
    match (phase, event) {
        (IssuerPhase::AwaitingBackend, IssuerEvent::BackendReady) => if count == 0 {
            IssuerPhase::Finished
        } else {
            IssuerPhase::InFlight { index: 0 }
        },
        (IssuerPhase::AwaitingBackend, IssuerEvent::BackendFailed) => IssuerPhase::Failed {
            error: SortError::BackendUnavailable,
        },
        (IssuerPhase::InFlight { index }, IssuerEvent::DispatchCompleted) => if index + 1 < count {
            IssuerPhase::InFlight { index: (index + 1) as usize }
        } else {
            IssuerPhase::Finished
        },
        (IssuerPhase::InFlight { index }, IssuerEvent::DispatchFailed) => IssuerPhase::Failed {
            error: SortError::DispatchFailed { index },
        },
        _ => phase,
    }
}

/// The action in answer to `event`.
pub open spec fn action_for(log_len: u32, phase: IssuerPhase, event: IssuerEvent) -> IssuerAction {
    let count = plan_entries(log_len).len();
    match (phase, event) {
        (IssuerPhase::AwaitingBackend, IssuerEvent::BackendReady) => if count == 0 {
            IssuerAction::Finished
        } else {
            submit_at(log_len, 0)
        },
        (IssuerPhase::AwaitingBackend, IssuerEvent::BackendFailed) => IssuerAction::Abort {
            error: SortError::BackendUnavailable,
        },
        (IssuerPhase::InFlight { index }, IssuerEvent::DispatchCompleted) => if index + 1 < count {
            submit_at(log_len, index + 1)
        } else {
            IssuerAction::Finished
        },
        (IssuerPhase::InFlight { index }, IssuerEvent::DispatchFailed) => IssuerAction::Abort {
            error: SortError::DispatchFailed { index },
        },
        _ => IssuerAction::Ignored,
    }
}

/// The phase after a whole sequence of events.
pub open spec fn phase_after(log_len: u32, phase: IssuerPhase, events: Seq<IssuerEvent>) -> IssuerPhase
    decreases events.len(),
{
    if events.len() == 0 {
        phase
    } else {
        phase_after(log_len, next_phase(log_len, phase, events[0]), events.drop_first())
    }
}

/// The parameter blocks submitted in answer to a sequence of events, in the
/// order of their submission.
pub open spec fn submitted(log_len: u32, phase: IssuerPhase, events: Seq<IssuerEvent>) -> Seq<
    StageParameters,
>
    decreases events.len(),
{
    if events.len() == 0 {
        Seq::empty()
    } else {
        let rest = submitted(log_len, next_phase(log_len, phase, events[0]), events.drop_first());
        match action_for(log_len, phase, events[0]) {
            IssuerAction::Submit { params, .. } => seq![params] + rest,
            _ => rest,
        }
    }
}

/// The number of entries that have been submitted once the issuer is in
/// `phase`, as far as the phase tells: `count` stands for all of them.
pub open spec fn progress(phase: IssuerPhase, count: nat) -> nat {
    match phase {
        IssuerPhase::AwaitingBackend => 0,
        IssuerPhase::InFlight { index } => (index + 1) as nat,
        IssuerPhase::Finished => count,
        IssuerPhase::Failed { .. } => count,
    }
}

/// Whether `phase` can occur for a plan of `count` entries.
pub open spec fn phase_in_plan(phase: IssuerPhase, count: nat) -> bool {
    phase matches IssuerPhase::InFlight { index } ==> index < count
}

/// A step keeps the phase within the plan.
pub proof fn lemma_next_phase_in_plan(log_len: u32, phase: IssuerPhase, event: IssuerEvent)
    requires
        phase_in_plan(phase, plan_entries(log_len).len()),
    ensures
        phase_in_plan(next_phase(log_len, phase, event), plan_entries(log_len).len()),
{
}

/// Whatever is reported, and in whatever order, what has been submitted from
/// a phase on is the stretch of the plan that follows what was submitted
/// before: nothing is skipped, repeated or reordered.
pub proof fn lemma_submitted_follows_plan(log_len: u32, phase: IssuerPhase, events: Seq<IssuerEvent>)
    requires
        plan_entries(log_len).len() <= usize::MAX,
        phase_in_plan(phase, plan_entries(log_len).len()),
        !(phase is Failed),
    ensures
        progress(phase, plan_entries(log_len).len()) + submitted(log_len, phase, events).len()
            <= plan_entries(log_len).len(),
        submitted(log_len, phase, events) == plan_entries(log_len).subrange(
            progress(phase, plan_entries(log_len).len()) as int,
            (progress(phase, plan_entries(log_len).len()) + submitted(
                log_len,
                phase,
                events,
            ).len()) as int,
        ),
    decreases events.len(),
{
    if events.len() > 0 {
        let next = next_phase(log_len, phase, events[0]);
        if next is Failed {
            lemma_nothing_after_failure(log_len, next, events.drop_first());
        } else {
            lemma_submitted_follows_plan(log_len, next, events.drop_first());
        }
    }
}

/// After a failure nothing is submitted any more.
pub proof fn lemma_nothing_after_failure(log_len: u32, phase: IssuerPhase, events: Seq<IssuerEvent>)
    requires
        phase is Failed || phase is Finished,
    ensures
        submitted(log_len, phase, events).len() == 0,
        phase_after(log_len, phase, events) == phase,
    decreases events.len(),
{
    if events.len() > 0 {
        lemma_nothing_after_failure(log_len, phase, events.drop_first());
    }
}

/// From the start, what has been submitted is always a prefix of the plan.
pub proof fn lemma_submitted_is_prefix(log_len: u32, events: Seq<IssuerEvent>)
    requires
        plan_entries(log_len).len() <= usize::MAX,
    ensures
        submitted(log_len, IssuerPhase::AwaitingBackend, events).len() <= plan_entries(log_len).len(),
        submitted(log_len, IssuerPhase::AwaitingBackend, events) == plan_entries(log_len).take(
            submitted(log_len, IssuerPhase::AwaitingBackend, events).len() as int,
        ),
{
    lemma_submitted_follows_plan(log_len, IssuerPhase::AwaitingBackend, events);
}

/// The events of a sort in which nothing fails: the backend is ready, then
/// each of `count` dispatches completes.
pub open spec fn all_succeed(count: nat) -> Seq<IssuerEvent> {
    seq![IssuerEvent::BackendReady] + Seq::new(count, |i: int| IssuerEvent::DispatchCompleted)
}

/// While the dispatch at `index` is in flight and the rest all complete, the
/// rest of the plan is submitted and the sort finishes.
pub proof fn lemma_completions_finish(log_len: u32, index: usize)
    requires
        index < plan_entries(log_len).len() <= usize::MAX,
    ensures
        phase_after(
            log_len,
            IssuerPhase::InFlight { index },
            Seq::new((plan_entries(log_len).len() - index) as nat, |i: int| IssuerEvent::DispatchCompleted),
        ) == IssuerPhase::Finished,
        submitted(
            log_len,
            IssuerPhase::InFlight { index },
            Seq::new((plan_entries(log_len).len() - index) as nat, |i: int| IssuerEvent::DispatchCompleted),
        ) == plan_entries(log_len).subrange(index + 1, plan_entries(log_len).len() as int),
    decreases plan_entries(log_len).len() - index,
{
    let count = plan_entries(log_len).len();
    let events = Seq::new((count - index) as nat, |i: int| IssuerEvent::DispatchCompleted);
    let tail = Seq::new((count - index - 1) as nat, |i: int| IssuerEvent::DispatchCompleted);
    assert(events.drop_first() =~= tail);
    if index + 1 < count {
        lemma_completions_finish(log_len, (index + 1) as usize);
    } else {
        assert(phase_after(log_len, IssuerPhase::Finished, tail) == IssuerPhase::Finished);
        assert(submitted(log_len, IssuerPhase::Finished, tail).len() == 0);
    }
}

/// Where nothing fails, the whole plan is submitted, entry by entry in its
/// order, and the sort finishes.
pub proof fn lemma_success_runs_whole_plan(log_len: u32)
    requires
        plan_entries(log_len).len() <= usize::MAX,
    ensures
        submitted(
            log_len,
            IssuerPhase::AwaitingBackend,
            all_succeed(plan_entries(log_len).len()),
        ) == plan_entries(log_len),
        phase_after(log_len, IssuerPhase::AwaitingBackend, all_succeed(plan_entries(log_len).len()))
            == IssuerPhase::Finished,
{
    let count = plan_entries(log_len).len();
    let events = all_succeed(count);
    let completions = Seq::new(count, |i: int| IssuerEvent::DispatchCompleted);
    assert(events.drop_first() =~= completions);
    if count == 0 {
        assert(phase_after(log_len, IssuerPhase::Finished, completions) == IssuerPhase::Finished);
        assert(submitted(log_len, IssuerPhase::Finished, completions).len() == 0);
    } else {
        lemma_completions_finish(log_len, 0);
    }
}

/// The issuer of one sort: the plan, the array's length, and where the sort
/// stands.
#[derive(Debug)]
pub struct DispatchIssuer {
    plan: DispatchPlan,
    len: usize,
    phase: IssuerPhase,
}

impl DispatchIssuer {
    /// The logarithm of the array's length.
    pub closed spec fn spec_log_len(&self) -> u32 {
        self.plan.spec_log_len()
    }

    /// The array's length.
    pub closed spec fn spec_len(&self) -> usize {
        self.len
    }

    /// Where the sort stands.
    pub closed spec fn spec_phase(&self) -> IssuerPhase {
        self.phase
    }

    #[verifier::type_invariant]
    closed spec fn consistent(self) -> bool {
        &&& self.plan@ == plan_entries(self.plan.spec_log_len())
        &&& self.plan.spec_log_len() < usize::BITS
        &&& fits(self.plan.spec_log_len(), self.len as int)
        &&& phase_in_plan(self.phase, self.plan@.len())
    }

    /// The issuer for an array of `len` elements. A length that is neither
    /// zero nor a power of two is refused, before anything is planned or
    /// submitted.
    pub fn new(len: usize) -> (r: Result<DispatchIssuer, SortError>)
        ensures
            r.is_ok() <==> len == 0 || is_power_of_two(len as int),
            r matches Err(e) ==> e == (SortError::NotPowerOfTwo { len }),
            r matches Ok(issuer) ==> {
                &&& issuer.spec_len() == len
                &&& fits(issuer.spec_log_len(), len as int)
                &&& issuer.spec_phase() == IssuerPhase::AwaitingBackend
            },
    {
        match log_len_of(len) {
            Ok(log_len) => {
                let plan = StageSequencer::compute(log_len);
                Ok(DispatchIssuer { plan, len, phase: IssuerPhase::AwaitingBackend })
            },
            Err(e) => Err(e),
        }
    }

    /// The issuer for an array of `len` elements and a plan made beforehand.
    /// The length must be one the sort accepts, and the plan must have been
    /// made for it.
    pub fn with_plan(plan: DispatchPlan, len: usize) -> (r: Result<DispatchIssuer, SortError>)
        ensures
            r.is_ok() <==> fits(plan.spec_log_len(), len as int),
            r matches Err(e) ==> e == (if len == 0 || is_power_of_two(len as int) {
                SortError::LengthMismatch { log_len: plan.spec_log_len(), len }
            } else {
                SortError::NotPowerOfTwo { len }
            }),
            r matches Ok(issuer) ==> {
                &&& issuer.spec_len() == len
                &&& issuer.spec_log_len() == plan.spec_log_len()
                &&& issuer.spec_phase() == IssuerPhase::AwaitingBackend
            },
    {
        let planned = plan.log_len();
        match log_len_of(len) {
            Ok(log_len) => {
                if log_len == planned {
                    Ok(DispatchIssuer { plan, len, phase: IssuerPhase::AwaitingBackend })
                } else {
                    proof {
                        lemma_pow2_pos(planned as nat);
                        lemma_pow2_pos(log_len as nat);
                        if len == pow2(planned as nat) && len == pow2(log_len as nat) {
                            lemma_log_len_unique(planned as nat, log_len as nat);
                        }
                    }
                    Err(SortError::LengthMismatch { log_len: planned, len })
                }
            },
            Err(e) => {
                Err(e)
            },
        }
    }

    /// Takes what the backend's driver reports and answers with what it is to
    /// do. The first dispatch is handed out when the backend is ready, each
    /// further one when the one before it has completed; a failure ends the
    /// sort; an event that does not belong to the phase changes nothing.
    pub fn step(&mut self, event: IssuerEvent) -> (action: IssuerAction)
        ensures
            final(self).spec_log_len() == old(self).spec_log_len(),
            final(self).spec_len() == old(self).spec_len(),
            final(self).spec_phase() == next_phase(
                old(self).spec_log_len(),
                old(self).spec_phase(),
                event,
            ),
            action == action_for(old(self).spec_log_len(), old(self).spec_phase(), event),
            action matches IssuerAction::Submit { params, .. } ==> params.in_range() && params.log_len
                == old(self).spec_log_len(),
    {
        proof {
            use_type_invariant(&*self);
        }
        let count = self.plan.len();
        match (self.phase, event) {
            (IssuerPhase::AwaitingBackend, IssuerEvent::BackendReady) => {
                if count == 0 {
                    self.phase = IssuerPhase::Finished;
                    IssuerAction::Finished
                } else {
                    self.phase = IssuerPhase::InFlight { index: 0 };
                    self.submit(0)
                }
            },
            (IssuerPhase::AwaitingBackend, IssuerEvent::BackendFailed) => {
                let error = SortError::BackendUnavailable;
                self.phase = IssuerPhase::Failed { error };
                IssuerAction::Abort { error }
            },
            (IssuerPhase::InFlight { index }, IssuerEvent::DispatchCompleted) => {
                if index + 1 < count {
                    self.phase = IssuerPhase::InFlight { index: index + 1 };
                    self.submit(index + 1)
                } else {
                    self.phase = IssuerPhase::Finished;
                    IssuerAction::Finished
                }
            },
            (IssuerPhase::InFlight { index }, IssuerEvent::DispatchFailed) => {
                let error = SortError::DispatchFailed { index };
                self.phase = IssuerPhase::Failed { error };
                IssuerAction::Abort { error }
            },
            _ => IssuerAction::Ignored,
        }
    }

    /// The action that submits the entry at `index`.
    fn submit(&self, index: usize) -> (action: IssuerAction)
        requires
            index < self.plan@.len(),
            self.plan@ == plan_entries(self.plan.spec_log_len()),
            self.plan.spec_log_len() < usize::BITS,
        ensures
            action == submit_at(self.plan.spec_log_len(), index as int),
            action matches IssuerAction::Submit { params, .. } ==> params.in_range() && params.log_len
                == self.plan.spec_log_len(),
    {
        let log_len = self.plan.log_len();
        proof {
            lemma_plan_entries_in_range(log_len, index as int);
        }
        let params = self.plan.entries()[index];
        IssuerAction::Submit { index, params, grid: dispatch_grid(log_len) }
    }

    /// Where the sort stands.
    pub fn phase(&self) -> (phase: IssuerPhase)
        ensures
            phase == self.spec_phase(),
            phase_in_plan(phase, plan_entries(self.spec_log_len()).len()),
    {
        proof {
            use_type_invariant(self);
        }
        self.phase
    }

    /// The plan that is being issued.
    pub fn plan(&self) -> (plan: &DispatchPlan)
        ensures
            plan.spec_log_len() == self.spec_log_len(),
            plan@ == plan_entries(self.spec_log_len()),
    {
        proof {
            use_type_invariant(self);
        }
        &self.plan
    }

    /// The array's length.
    pub fn len(&self) -> (len: usize)
        ensures
            len == self.spec_len(),
            fits(self.spec_log_len(), len as int),
    {
        proof {
            use_type_invariant(self);
        }
        self.len
    }

    /// The logarithm of the array's length.
    pub fn log_len(&self) -> (log_len: u32)
        ensures
            log_len == self.spec_log_len(),
            fits(log_len, self.spec_len() as int),
    {
        proof {
            use_type_invariant(self);
        }
        self.plan.log_len()
    }

    /// Whether the sort has ended, well or not.
    pub fn is_done(&self) -> (done: bool)
        ensures
            done == (self.spec_phase() is Finished || self.spec_phase() is Failed),
    {
        match self.phase {
            IssuerPhase::Finished => true,
            IssuerPhase::Failed { .. } => true,
            _ => false,
        }
    }
}

} // verus!
