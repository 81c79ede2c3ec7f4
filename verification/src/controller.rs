//! The decisions of the controller of a run: how many evaluations to start
//! with, and after each event whether to start another evaluation, to abort
//! the running ones, or to stop.
use vstd::prelude::*;
use crate::error::Error;
use crate::real_key::RealKey;

verus! {

/// Hands out the seeds of the evaluations: 0, 1, 2, ...
#[derive(Debug)]
pub struct SeedManager {
    next_seed: u64,
}

impl SeedManager {
    /// The seed that the next call of `next_seed` returns.
    pub closed spec fn next(&self) -> u64 {
        self.next_seed
    }

    /// A seed manager that starts at seed 0.
    pub fn new() -> (r: SeedManager)
        ensures
            r.next() == 0,
    {
        SeedManager { next_seed: 0 }
    }

    /// Whether another seed can be handed out.
    pub fn has_next_seed(&self) -> (r: bool)
        ensures
            r == (self.next() < u64::MAX),
    {
        self.next_seed < u64::MAX
    }

    /// The next seed.
    pub fn next_seed(&mut self) -> (r: u64)
        requires
            old(self).next() < u64::MAX,
        ensures
            r == old(self).next(),
            final(self).next() == old(self).next() + 1,
    {
        let result = self.next_seed;
        self.next_seed = self.next_seed + 1;
        result
    }
}

/// What the controller learns.
#[derive(Debug, Clone, Copy)]
pub enum ControllerInput {
    /// An evaluation completed: accepted or rejected by the objective
    /// function, and, once it was processed, the best final objective
    /// function value seen so far, if any.
    EvalCompleted { accepted: bool, best_seen_final: Option<RealKey> },
    /// An evaluation failed with an error.
    EvalFailed,
    /// A signal to abort the run arrived.
    AbortSignal,
    /// No evaluation is running any more.
    AllDone,
}

/// What the controller does next.
#[derive(Debug, Clone, Copy, PartialEq, Eq, Structural)]
pub enum ControllerAction {
    /// End the run.
    Stop,
    /// Start the evaluation of another individual.
    PushIndividual,
    /// Tell the running evaluations to abort.
    BroadcastAbort,
    /// Wait for the next event.
    Wait,
}

/// The counts and flags that the controller's decisions rest on.
#[derive(Debug, Clone, Copy)]
pub struct ControllerState {
    pub count_accepted: usize,
    pub count_rejected: usize,
    pub pushed_for_eval_count: usize,
    pub abort_signal_received: bool,
    pub error_recorded: bool,
    pub max_num_eval: Option<usize>,
    pub target_obj_func_val: Option<RealKey>,
}

/// How many evaluations start at once: the number that may run at once,
/// but no more than the maximum number of evaluations.
pub open spec fn spec_initial_num_individuals(num_concurrent: usize, max_num_eval: Option<usize>) -> usize {
    match max_num_eval {
        Some(m) => if m < num_concurrent { m } else { num_concurrent },
        None => num_concurrent,
    }
}

/// Whether the best final value reaches the target.
pub open spec fn target_reached(target: Option<RealKey>, best_seen_final: Option<RealKey>) -> bool {
    match (target, best_seen_final) {
        (Some(t), Some(b)) => b.0 <= t.0,
        _ => false,
    }
}

/// How the controller's state moves on an input, and what it does.
pub open spec fn spec_step(s: ControllerState, input: ControllerInput) -> (ControllerState, ControllerAction) {
    match input {
        ControllerInput::EvalCompleted { accepted, best_seen_final } => {
            let s1 = if accepted {
                ControllerState { count_accepted: (s.count_accepted + 1) as usize, ..s }
            } else {
                ControllerState { count_rejected: (s.count_rejected + 1) as usize, ..s }
            };
            let completed = s1.count_accepted + s1.count_rejected;
            if target_reached(s.target_obj_func_val, best_seen_final) {
                (s1, ControllerAction::Stop)
            } else if s.max_num_eval matches Some(m) && completed >= m {
                (s1, ControllerAction::Stop)
            } else if !(s.max_num_eval matches Some(m) && s.pushed_for_eval_count >= m) && !s.abort_signal_received {
                (ControllerState { pushed_for_eval_count: (s.pushed_for_eval_count + 1) as usize, ..s1 }, ControllerAction::PushIndividual)
            } else {
                (s1, ControllerAction::Wait)
            }
        },
        ControllerInput::EvalFailed => if !s.abort_signal_received {
            (ControllerState { abort_signal_received: true, error_recorded: true, ..s }, ControllerAction::BroadcastAbort)
        } else {
            (s, ControllerAction::Wait)
        },
        ControllerInput::AbortSignal => if !s.abort_signal_received {
            (ControllerState { abort_signal_received: true, ..s }, ControllerAction::BroadcastAbort)
        } else {
            (s, ControllerAction::Wait)
        },
        ControllerInput::AllDone => (s, ControllerAction::Stop),
    }
}

/// Whether an input is a completed evaluation, accepted or rejected, after
/// which the run goes on: the target is not reached, the maximum number of
/// evaluations (if any) is neither started nor completed with it, and no
/// abort was received.
pub open spec fn continues_after(s: ControllerState, input: ControllerInput) -> bool {
    &&& input matches ControllerInput::EvalCompleted { best_seen_final, .. }
    &&& !target_reached(s.target_obj_func_val, input->best_seen_final)
    &&& s.max_num_eval matches Some(m) ==> s.pushed_for_eval_count < m && s.count_accepted + s.count_rejected + 1 < m
    &&& !s.abort_signal_received
}

/// After a completed evaluation that the run goes on from, the controller
/// starts another evaluation, whether the objective function accepted or
/// rejected the individual; and on any state (whose counts can still grow),
/// an accepted and a rejected evaluation lead to the same action.
pub proof fn law_rejected_like_accepted(s: ControllerState, best_seen_final: Option<RealKey>)
    requires
        s.count_accepted + s.count_rejected < usize::MAX,
    ensures
        continues_after(s, ControllerInput::EvalCompleted { accepted: true, best_seen_final })
            ==> spec_step(s, ControllerInput::EvalCompleted { accepted: true, best_seen_final }).1 == ControllerAction::PushIndividual,
        continues_after(s, ControllerInput::EvalCompleted { accepted: false, best_seen_final })
            ==> spec_step(s, ControllerInput::EvalCompleted { accepted: false, best_seen_final }).1 == ControllerAction::PushIndividual,
        spec_step(s, ControllerInput::EvalCompleted { accepted: true, best_seen_final }).1
            == spec_step(s, ControllerInput::EvalCompleted { accepted: false, best_seen_final }).1,
{
}

/// The state's invariant: with a maximum number of evaluations, no more than
/// that many were started.
pub open spec fn state_wf(s: ControllerState) -> bool {
    s.max_num_eval matches Some(m) ==> s.pushed_for_eval_count <= m
}

impl ControllerState {
    /// A state for a run with the given termination limits, before any
    /// evaluation started.
    pub fn new(max_num_eval: Option<usize>, target_obj_func_val: Option<RealKey>) -> (r: ControllerState)
        ensures
            r == (ControllerState {
                count_accepted: 0,
                count_rejected: 0,
                pushed_for_eval_count: 0,
                abort_signal_received: false,
                error_recorded: false,
                max_num_eval,
                target_obj_func_val,
            }),
            state_wf(r),
    {
        ControllerState {
            count_accepted: 0,
            count_rejected: 0,
            pushed_for_eval_count: 0,
            abort_signal_received: false,
            error_recorded: false,
            max_num_eval,
            target_obj_func_val,
        }
    }

    /// Starts the first evaluations: returns how many (see
    /// `spec_initial_num_individuals`) and counts them as started.
    pub fn start(&mut self, num_concurrent: usize) -> (r: usize)
        requires
            old(self).pushed_for_eval_count == 0,
        ensures
            r == spec_initial_num_individuals(num_concurrent, old(self).max_num_eval),
            *final(self) == (ControllerState { pushed_for_eval_count: r, ..*old(self) }),
            state_wf(*final(self)),
    {
        let n = match self.max_num_eval {
            Some(m) => if m < num_concurrent { m } else { num_concurrent },
            None => num_concurrent,
        };
        self.pushed_for_eval_count = n;
        n
    }

    /// The next state and action on an input (see `spec_step`). The number
    /// of started evaluations never exceeds the maximum; after an abort no
    /// evaluation starts; once as many evaluations completed as the maximum
    /// allows, or the target is reached, the run stops.
    pub fn step(&mut self, input: ControllerInput) -> (r: ControllerAction)
        requires
            old(self).count_accepted + old(self).count_rejected < usize::MAX,
            old(self).pushed_for_eval_count < usize::MAX,
        ensures
            (*final(self), r) == spec_step(*old(self), input),
            state_wf(*old(self)) ==> state_wf(*final(self)),
            old(self).abort_signal_received ==> r != ControllerAction::PushIndividual,
            (input matches ControllerInput::EvalCompleted { .. } && old(self).max_num_eval matches Some(m)
                && final(self).count_accepted + final(self).count_rejected >= m) ==> r == ControllerAction::Stop,
            continues_after(*old(self), input) ==> r == ControllerAction::PushIndividual,
            input matches ControllerInput::EvalCompleted { accepted, best_seen_final } ==> {
                &&& final(self).count_accepted == old(self).count_accepted + if accepted { 1int } else { 0int }
                &&& final(self).count_rejected == old(self).count_rejected + if accepted { 0int } else { 1int }
            },
    {
        match input {
            ControllerInput::EvalCompleted { accepted, best_seen_final } => {
                if accepted {
                    self.count_accepted = self.count_accepted + 1;
                } else {
                    self.count_rejected = self.count_rejected + 1;
                }
                let reached = match (self.target_obj_func_val, best_seen_final) {
                    (Some(t), Some(b)) => b.0 <= t.0,
                    _ => false,
                };
                if reached {
                    return ControllerAction::Stop;
                }
                let completed = self.count_accepted + self.count_rejected;
                let (max_num_eval_pushed, max_num_eval_completed) = match self.max_num_eval {
                    Some(m) => (self.pushed_for_eval_count >= m, completed >= m),
                    None => (false, false),
                };
                if max_num_eval_completed {
                    ControllerAction::Stop
                } else if !max_num_eval_pushed && !self.abort_signal_received {
                    self.pushed_for_eval_count = self.pushed_for_eval_count + 1;
                    ControllerAction::PushIndividual
                } else {
                    ControllerAction::Wait
                }
            },
            ControllerInput::EvalFailed => {
                if !self.abort_signal_received {
                    self.abort_signal_received = true;
                    self.error_recorded = true;
                    ControllerAction::BroadcastAbort
                } else {
                    ControllerAction::Wait
                }
            },
            ControllerInput::AbortSignal => {
                if !self.abort_signal_received {
                    self.abort_signal_received = true;
                    ControllerAction::BroadcastAbort
                } else {
                    ControllerAction::Wait
                }
            },
            ControllerInput::AllDone => ControllerAction::Stop,
        }
    }

    /// How the run ends once the controller stopped: the recorded error, else
    /// `NoIndividuals` where no individual has a final objective function
    /// value, else the report (`Ok`).
    pub fn outcome(&self, has_best_seen_final: bool) -> (r: Result<(), Option<Error>>)
        ensures
            self.error_recorded ==> r == Err::<(), Option<Error>>(None),
            !self.error_recorded && !has_best_seen_final ==> r == Err::<(), Option<Error>>(Some(Error::NoIndividuals)),
            !self.error_recorded && has_best_seen_final ==> r == Ok::<(), Option<Error>>(()),
    {
        if self.error_recorded {
            Err(None)
        } else if !has_best_seen_final {
            Err(Some(Error::NoIndividuals))
        } else {
            Ok(())
        }
    }
}

} // verus!
