//! The decisions of a patching run. The caller applies the patches,
//! searches the tree and asks the operator; after each of these it reports
//! what happened, and [`step`] says what state the run is in and what to do
//! next.

use vstd::prelude::*;

verus! {

/// Why a run stopped before all patches were applied.
#[derive(Clone, Copy, Debug, PartialEq, Eq, Structural)]
pub enum RunError {
    /// A file could not be read or written.
    Io,
    /// The tree could not be read during the search for markers.
    Scan,
    /// A program that the run depends on did not start or failed.
    Subprocess,
    /// A patch failed to apply and left no conflict marker behind.
    UnresolvableConflict,
}

/// How a run ended.
#[derive(Clone, Copy, Debug, PartialEq, Eq, Structural)]
pub enum Outcome {
    /// Every patch applied cleanly.
    AllApplied,
    /// Patch `patch` left conflicts, and all of them were handled.
    ConflictsHandled { patch: usize },
    /// The run failed while patch `patch` was in flight.
    Failed { patch: usize, error: RunError },
}

/// Where a run stands. Patches are numbered from 0 in the order in which
/// the caller wants them applied.
#[derive(Clone, Copy, Debug, PartialEq, Eq, Structural)]
pub enum RunState {
    /// No patch is in flight; `next` is the one to apply next.
    Idle { next: usize },
    /// Patch `patch` is being applied.
    Applying { patch: usize },
    /// Patch `patch` failed to apply; the tree is being searched for markers.
    Conflicted { patch: usize },
    /// The `ranges` conflicts that patch `patch` left are being resolved.
    Resolving { patch: usize, ranges: usize },
    /// The run is over.
    Stopped { outcome: Outcome },
}

/// What the caller reports.
#[derive(Clone, Copy, Debug, PartialEq, Eq, Structural)]
pub enum Event {
    /// The run begins.
    Start,
    /// The patch in flight applied cleanly.
    PatchApplied,
    /// The patch in flight did not apply.
    PatchRejected,
    /// The search for markers ended and the conflicts number `ranges`.
    ScanCompleted { ranges: usize },
    /// Every conflict was handled.
    ConflictsResolved,
    /// What was last asked for failed with `error`.
    Failed { error: RunError },
}

/// What the caller is asked to do next.
#[derive(Clone, Copy, Debug, PartialEq, Eq, Structural)]
pub enum Action {
    /// Apply patch `patch` to the tree.
    ApplyPatch { patch: usize },
    /// Search the tree for the markers that patch `patch` left.
    ScanTree { patch: usize },
    /// Resolve the `ranges` conflicts that patch `patch` left, one by one.
    ResolveConflicts { patch: usize, ranges: usize },
    /// Nothing more: the run is over.
    Finish,
}

/// One transition: the new state, and what it asks of the caller.
#[derive(Clone, Copy, Debug, PartialEq, Eq, Structural)]
pub struct Step {
    pub state: RunState,
    pub action: Action,
}

/// The transition that ends a run with `outcome`.
pub open spec fn stop_with(outcome: Outcome) -> Step {
    Step { state: RunState::Stopped { outcome }, action: Action::Finish }
}

/// The transition that takes up patch `next` of `count`, or ends the run
/// where none is left.
pub open spec fn take_up(next: usize, count: usize) -> Step {
    if next < count {
        Step { state: RunState::Applying { patch: next }, action: Action::ApplyPatch { patch: next } }
    } else {
        stop_with(Outcome::AllApplied)
    }
}

/// The transition of a run over `count` patches from `state` on `event`, or
/// `None` where `state` does not wait for `event`.
///
/// A patch that applies is followed by the next one. A patch that does not
/// apply has the tree searched; without a conflict the run fails, else the
/// conflicts are resolved and the run stops there. Any failure stops the run.
pub open spec fn step_spec(state: RunState, event: Event, count: usize) -> Option<Step> {
    match (state, event) {
        (RunState::Idle { next }, Event::Start) if next <= count => Some(take_up(next, count)),
        (RunState::Applying { patch }, Event::PatchApplied) if patch < count => Some(
            take_up((patch + 1) as usize, count),
        ),
        (RunState::Applying { patch }, Event::PatchRejected) if patch < count => Some(
            Step { state: RunState::Conflicted { patch }, action: Action::ScanTree { patch } },
        ),
        (RunState::Applying { patch }, Event::Failed { error }) if patch < count => Some(
            stop_with(Outcome::Failed { patch, error }),
        ),
        (RunState::Conflicted { patch }, Event::ScanCompleted { ranges }) if patch < count => Some(
            if ranges == 0 {
                stop_with(Outcome::Failed { patch, error: RunError::UnresolvableConflict })
            } else {
                Step {
                    state: RunState::Resolving { patch, ranges },
                    action: Action::ResolveConflicts { patch, ranges },
                }
            },
        ),
        (RunState::Conflicted { patch }, Event::Failed { error }) if patch < count => Some(
            stop_with(Outcome::Failed { patch, error }),
        ),
        (RunState::Resolving { patch, ranges }, Event::ConflictsResolved) if patch < count
            && ranges > 0 => Some(stop_with(Outcome::ConflictsHandled { patch })),
        (RunState::Resolving { patch, ranges }, Event::Failed { error }) if patch < count && ranges
            > 0 => Some(stop_with(Outcome::Failed { patch, error })),
        _ => None,
    }
}

fn stop(outcome: Outcome) -> (step: Step)
    ensures
        step == stop_with(outcome),
{
    Step { state: RunState::Stopped { outcome }, action: Action::Finish }
}

fn take_up_patch(next: usize, count: usize) -> (step: Step)
    ensures
        step == take_up(next, count),
{
    if next < count {
        Step { state: RunState::Applying { patch: next }, action: Action::ApplyPatch { patch: next } }
    } else {
        stop(Outcome::AllApplied)
    }
}

/// Takes a run over `count` patches from `state` on `event`.
pub fn step(state: RunState, event: Event, count: usize) -> (next: Option<Step>)
    ensures
        next == step_spec(state, event, count),
{
    match state {
        RunState::Idle { next } => match event {
            Event::Start if next <= count => Some(take_up_patch(next, count)),
            _ => None,
        },
        RunState::Applying { patch } => {
            if patch >= count {
                return None;
            }
            match event {
                Event::PatchApplied => Some(take_up_patch(patch + 1, count)),
                Event::PatchRejected => Some(
                    Step {
                        state: RunState::Conflicted { patch },
                        action: Action::ScanTree { patch },
                    },
                ),
                Event::Failed { error } => Some(stop(Outcome::Failed { patch, error })),
                _ => None,
            }
        },
        RunState::Conflicted { patch } => {
            if patch >= count {
                return None;
            }
            match event {
                Event::ScanCompleted { ranges } => {
                    if ranges == 0 {
                        Some(
                            stop(
                                Outcome::Failed { patch, error: RunError::UnresolvableConflict },
                            ),
                        )
                    } else {
                        Some(
                            Step {
                                state: RunState::Resolving { patch, ranges },
                                action: Action::ResolveConflicts { patch, ranges },
                            },
                        )
                    }
                },
                Event::Failed { error } => Some(stop(Outcome::Failed { patch, error })),
                _ => None,
            }
        },
        RunState::Resolving { patch, ranges } => {
            if patch >= count || ranges == 0 {
                return None;
            }
            match event {
                Event::ConflictsResolved => Some(stop(Outcome::ConflictsHandled { patch })),
                Event::Failed { error } => Some(stop(Outcome::Failed { patch, error })),
                _ => None,
            }
        },
        RunState::Stopped { .. } => None,
    }
}

/// The state of a run over `count` patches after `events`, reported in
/// this order from the beginning, or `None` where one of them came while the
/// run did not wait for it.
pub open spec fn run(events: Seq<Event>, count: usize) -> Option<RunState>
    decreases events.len(),
{
    if events.len() == 0 {
        Some(RunState::Idle { next: 0 })
    } else {
        match run(events.drop_last(), count) {
            Some(state) => match step_spec(state, events.last(), count) {
                Some(step) => Some(step.state),
                None => None,
            },
            None => None,
        }
    }
}

/// Whether `events` report the beginning of a run and then nothing but
/// patches that applied.
pub open spec fn only_applied(events: Seq<Event>) -> bool {
    &&& events.len() >= 1
    &&& events[0] == Event::Start
    &&& forall|i: int| 1 <= i < events.len() ==> #[trigger] events[i] == Event::PatchApplied
}

/// A run that is over takes no further step.
pub proof fn lemma_stopped_is_final(outcome: Outcome, event: Event, count: usize)
    ensures
        step_spec(RunState::Stopped { outcome }, event, count) is None,
{
}

/// There is no skip-and-continue: a failure, whenever the run takes it,
/// stops the run with that error, and so does a patch that failed and left no
/// conflict.
pub proof fn lemma_failure_stops_the_run(state: RunState, error: RunError, count: usize)
    ensures
        match step_spec(state, Event::Failed { error }, count) {
            Some(step) => step.action == Action::Finish && exists|patch: usize|
                step.state == (RunState::Stopped { outcome: Outcome::Failed { patch, error } }),
            None => true,
        },
        match step_spec(state, Event::ScanCompleted { ranges: 0 }, count) {
            Some(step) => step.action == Action::Finish && exists|patch: usize|
                step.state == (RunState::Stopped {
                    outcome: Outcome::Failed { patch, error: RunError::UnresolvableConflict },
                }),
            None => true,
        },
{
    match state {
        RunState::Applying { patch } | RunState::Conflicted { patch } | RunState::Resolving {
            patch,
            ..
        } => {
            if step_spec(state, Event::Failed { error }, count) is Some {
                assert(step_spec(state, Event::Failed { error }, count).unwrap().state == (
                RunState::Stopped { outcome: Outcome::Failed { patch, error } }));
            }
            if step_spec(state, Event::ScanCompleted { ranges: 0 }, count) is Some {
                assert(step_spec(state, Event::ScanCompleted { ranges: 0 }, count).unwrap().state
                    == (RunState::Stopped {
                    outcome: Outcome::Failed { patch, error: RunError::UnresolvableConflict },
                }));
            }
        },
        _ => {},
    }
}

/// Once a patch has failed to apply, no patch is applied any more: from
/// then on the run only searches, resolves and stops.
pub proof fn lemma_no_patch_after_a_conflict(state: RunState, event: Event, count: usize)
    requires
        state is Conflicted || state is Resolving,
    ensures
        match step_spec(state, event, count) {
            Some(step) => (step.state is Resolving || step.state is Stopped) && !(
            step.action is ApplyPatch),
            None => true,
        },
{
}

/// What a run has seen by the time it is in a given state: while patches
/// are being applied, the beginning and one applied patch for each patch
/// before the one in flight; when it stops with every patch applied, the
/// beginning and one applied patch for each patch.
proof fn lemma_run_history(events: Seq<Event>, count: usize)
    ensures
        match run(events, count) {
            Some(RunState::Idle { next }) => next == 0 && events.len() == 0,
            Some(RunState::Applying { patch }) => patch < count && events.len() == patch + 1
                && only_applied(events),
            Some(RunState::Stopped { outcome: Outcome::AllApplied }) => events.len() == count + 1
                && only_applied(events),
            _ => true,
        },
    decreases events.len(),
{
    if events.len() > 0 {
        let earlier = events.drop_last();
        lemma_run_history(earlier, count);
        match run(earlier, count) {
            Some(RunState::Idle { next }) => {},
            Some(RunState::Applying { patch }) => {
                assert forall|i: int| 1 <= i < events.len() && events.last()
                    == Event::PatchApplied implies #[trigger] events[i] == Event::PatchApplied by {
                    if i < earlier.len() {
                        assert(events[i] == earlier[i]);
                    }
                }
                assert(events[0] == earlier[0]);
            },
            _ => {},
        }
    }
}

/// A run ends with every patch applied only after each of the `count`
/// patches was reported as applied, one after the other, and nothing else
/// happened.
pub proof fn lemma_all_applied_means_every_patch_applied(events: Seq<Event>, count: usize)
    requires
        run(events, count) == Some(RunState::Stopped { outcome: Outcome::AllApplied }),
    ensures
        events.len() == count + 1,
        only_applied(events),
{
    lemma_run_history(events, count);
}

/// Patches are applied in the order given: whenever the run asks for a
/// patch, it is the one after the last that applied, and all before it have
/// applied.
pub proof fn lemma_patches_are_applied_in_order(
    events: Seq<Event>,
    event: Event,
    count: usize,
    patch: usize,
)
    requires
        run(events, count) is Some,
        step_spec(run(events, count).unwrap(), event, count) is Some,
        step_spec(run(events, count).unwrap(), event, count).unwrap().action == (
        Action::ApplyPatch { patch }),
    ensures
        patch == events.len(),
        patch < count,
        events.len() > 0 ==> only_applied(events) && event == Event::PatchApplied,
        events.len() == 0 ==> event == Event::Start,
{
    lemma_run_history(events, count);
}

} // verus!
