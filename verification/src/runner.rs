//! The migration runner.
//!
//! A runner is a state machine. It starts idle, with the tree. A request
//! takes it to resolving, where it asks the registry for the steps between
//! the two versions. With the steps it is applying: one step at a time, each
//! on a copy of the tree that the step before it left. It ends in one of two
//! ways: succeeded, with the tree that the last step left, or failed, at the
//! first failure, with the error and the tree as it was when the failure
//! came. A tree that a step changed only in part is never handed out.

use crate::error::MigrationError;
use crate::model::TreeModel;
use crate::operation::apply_model;
use crate::registry::{ref_views, resolve_model, MigrationStep, Registry, StepModel};
use crate::tree::ConfigTree;
use crate::version::{Direction, Version};
use vstd::prelude::*;

verus! {

/// How a migration run ended.
#[derive(Debug, PartialEq)]
pub enum MigrationOutcome<'a> {
    /// Every step was applied; this is the tree that the last one left.
    UpdatedTree(ConfigTree),
    /// The run stopped at its first failure.
    Failed {
        /// Why the run stopped.
        error: MigrationError,
        /// The index of the step that failed among the steps of the run, or
        /// nothing where the steps could not be resolved.
        failed_step: Option<usize>,
        /// The steps that were applied before the failure, in order.
        applied: Vec<&'a MigrationStep>,
        /// The tree as the last applied step left it: the tree that was
        /// handed in, where no step was applied.
        tree: ConfigTree,
    },
}

/// An outcome over trees as maps and steps as their models.
pub enum OutcomeModel {
    UpdatedTree(TreeModel),
    Failed { error: MigrationError, failed_step: Option<int>, applied: Seq<StepModel>, tree: TreeModel },
}

impl<'a> View for MigrationOutcome<'a> {
    type V = OutcomeModel;

    open spec fn view(&self) -> OutcomeModel {
        match self {
            MigrationOutcome::UpdatedTree(tree) => OutcomeModel::UpdatedTree(tree@),
            MigrationOutcome::Failed { error, failed_step, applied, tree } => OutcomeModel::Failed {
                error: *error,
                failed_step: match failed_step {
                    Some(i) => Some(*i as int),
                    None => None,
                },
                applied: ref_views(applied@),
                tree: tree@,
            },
        }
    }
}

/// The state of a runner.
#[derive(Debug, PartialEq)]
pub enum RunnerState<'a> {
    /// The runner holds the tree, and nothing has been asked of it.
    Idle { tree: ConfigTree },
    /// The runner is to find the steps between the two versions.
    Resolving { tree: ConfigTree, from: Version, to: Version, direction: Direction },
    /// The runner is to apply the step at position `next` to the tree, and
    /// the steps after it.
    Applying { tree: ConfigTree, steps: Vec<&'a MigrationStep>, next: usize },
    /// The run has ended: it succeeded or it failed.
    Done(MigrationOutcome<'a>),
}

/// A state over trees as maps and steps as their models.
pub enum StateModel {
    Idle { tree: TreeModel },
    Resolving { tree: TreeModel, from: Version, to: Version, direction: Direction },
    Applying { tree: TreeModel, steps: Seq<StepModel>, next: int },
    Done(OutcomeModel),
}

impl<'a> View for RunnerState<'a> {
    type V = StateModel;

    open spec fn view(&self) -> StateModel {
        match self {
            RunnerState::Idle { tree } => StateModel::Idle { tree: tree@ },
            RunnerState::Resolving { tree, from, to, direction } => StateModel::Resolving {
                tree: tree@,
                from: *from,
                to: *to,
                direction: *direction,
            },
            RunnerState::Applying { tree, steps, next } => StateModel::Applying {
                tree: tree@,
                steps: ref_views(steps@),
                next: *next as int,
            },
            RunnerState::Done(outcome) => StateModel::Done(outcome@),
        }
    }
}

/// The phase that a runner is in.
#[derive(Clone, Copy, Debug, PartialEq, Eq, Structural)]
pub enum Phase {
    Idle,
    Resolving,
    Applying,
    Succeeded,
    Failed,
}

/// The phase of a state.
pub open spec fn phase_model(state: StateModel) -> Phase {
    match state {
        StateModel::Idle { .. } => Phase::Idle,
        StateModel::Resolving { .. } => Phase::Resolving,
        StateModel::Applying { .. } => Phase::Applying,
        StateModel::Done(OutcomeModel::UpdatedTree(_)) => Phase::Succeeded,
        StateModel::Done(OutcomeModel::Failed { .. }) => Phase::Failed,
    }
}

/// A request takes an idle runner to resolving. A runner is for one run: in
/// any other state the request changes nothing.
pub open spec fn request_model(state: StateModel, from: Version, to: Version, d: Direction) -> StateModel {
    match state {
        StateModel::Idle { tree } => StateModel::Resolving { tree, from, to, direction: d },
        other => other,
    }
}

/// One transition. Resolving ends with the steps, or fails with the tree
/// untouched and no step named. Applying applies the next step to the tree:
/// its failure ends the run with the tree as it was and the steps before it;
/// with no step left the run has succeeded. An idle runner waits, and a run
/// that has ended stays ended.
pub open spec fn advance_model(state: StateModel, registry: Seq<StepModel>) -> StateModel {
    match state {
        StateModel::Resolving { tree, from, to, direction } => match resolve_model(
            registry,
            from,
            to,
            direction,
        ) {
            Ok(steps) => StateModel::Applying { tree, steps, next: 0 },
            Err(error) => StateModel::Done(
                OutcomeModel::Failed { error, failed_step: None, applied: Seq::empty(), tree },
            ),
        },
        StateModel::Applying { tree, steps, next } => if 0 <= next < steps.len() {
            match apply_model(steps[next].operation, tree) {
                Ok(changed) => StateModel::Applying { tree: changed, steps, next: next + 1 },
                Err(error) => StateModel::Done(
                    OutcomeModel::Failed {
                        error,
                        failed_step: Some(next),
                        applied: steps.take(next),
                        tree,
                    },
                ),
            }
        } else {
            StateModel::Done(OutcomeModel::UpdatedTree(tree))
        },
        other => other,
    }
}

/// Applying the steps from position `i` on to the tree `m`: each step works
/// on what the step before it left, and the first refusal ends the run with
/// the tree as it then was and the steps before that position.
pub open spec fn apply_steps_model(m: TreeModel, steps: Seq<StepModel>, i: int) -> OutcomeModel
    decreases steps.len() - i,
{
    if i < 0 || i >= steps.len() {
        OutcomeModel::UpdatedTree(m)
    } else {
        match apply_model(steps[i].operation, m) {
            Ok(next) => apply_steps_model(next, steps, i + 1),
            Err(e) => OutcomeModel::Failed {
                error: e,
                failed_step: Some(i),
                applied: steps.take(i),
                tree: m,
            },
        }
    }
}

/// A whole run: where the steps cannot be resolved the run fails with the
/// tree untouched and no step named; else the steps are applied.
pub open spec fn run_model(
    registry: Seq<StepModel>,
    m: TreeModel,
    from: Version,
    to: Version,
    d: Direction,
) -> OutcomeModel {
    match resolve_model(registry, from, to, d) {
        Ok(steps) => apply_steps_model(m, steps, 0),
        Err(e) => OutcomeModel::Failed {
            error: e,
            failed_step: None,
            applied: Seq::empty(),
            tree: m,
        },
    }
}

/// The outcome that a runner in this state is heading for. An idle runner
/// has not been asked for any.
pub open spec fn end_model(state: StateModel, registry: Seq<StepModel>) -> Option<OutcomeModel> {
    match state {
        StateModel::Idle { .. } => None,
        StateModel::Resolving { tree, from, to, direction } => Some(
            run_model(registry, tree, from, to, direction),
        ),
        StateModel::Applying { tree, steps, next } => Some(apply_steps_model(tree, steps, next)),
        StateModel::Done(outcome) => Some(outcome),
    }
}

/// How many transitions a state is from the end of its run, where the steps
/// are known.
pub open spec fn steps_left(state: StateModel) -> int {
    match state {
        StateModel::Applying { steps, next, .. } => if 0 <= next < steps.len() {
            steps.len() - next + 1
        } else {
            1
        },
        _ => 0,
    }
}

/// What the driver is handed for an outcome: the tree, or one error. The
/// failure of a step is wrapped with the index of the step.
pub open spec fn result_model(outcome: OutcomeModel) -> Result<TreeModel, MigrationError> {
    match outcome {
        OutcomeModel::UpdatedTree(tree) => Ok(tree),
        OutcomeModel::Failed { error, failed_step: Some(i), .. } => Err(
            MigrationError::OperationFailed(i as usize, Box::new(error)),
        ),
        OutcomeModel::Failed { error, failed_step: None, .. } => Err(error),
    }
}

/// A transition does not change the outcome that the runner is heading for.
pub proof fn lemma_advance_keeps_end(state: StateModel, registry: Seq<StepModel>)
    ensures
        end_model(advance_model(state, registry), registry) == end_model(state, registry),
{
}

/// A run that failed at a step had applied the steps before it, one after the
/// other, and hands out the tree that they left, which the failing step
/// refused.
pub proof fn lemma_failure_is_first(m: TreeModel, steps: Seq<StepModel>, i: int)
    requires
        0 <= i,
        apply_steps_model(m, steps, i) is Failed,
    ensures
        ({
            let end = apply_steps_model(m, steps, i);
            let at = end->failed_step->0;
            &&& end->failed_step is Some
            &&& i <= at < steps.len()
            &&& end->applied == steps.take(at)
            &&& apply_steps_model(m, steps.take(at), i) == OutcomeModel::UpdatedTree(end->tree)
            &&& apply_model(steps[at].operation, end->tree) == Err::<TreeModel, _>(end->error)
        }),
    decreases steps.len() - i,
{
    match apply_model(steps[i].operation, m) {
        Ok(next) => {
            lemma_failure_is_first(next, steps, i + 1);
            let at = apply_steps_model(m, steps, i)->failed_step->0;
            assert(steps.take(at)[i] == steps[i]);
        },
        Err(e) => {},
    }
}

impl<'a> MigrationOutcome<'a> {
    /// Whether the run succeeded.
    pub fn is_success(&self) -> (b: bool)
        ensures
            b == (self@ is UpdatedTree),
    {
        match self {
            MigrationOutcome::UpdatedTree(_) => true,
            MigrationOutcome::Failed { .. } => false,
        }
    }

    /// The outcome as a result. The result is as [`result_model`] says.
    pub fn into_result(self) -> (r: Result<ConfigTree, MigrationError>)
        ensures
            match r {
                Ok(tree) => result_model(self@) == Ok::<_, MigrationError>(tree@),
                Err(e) => result_model(self@) == Err::<TreeModel, _>(e),
            },
    {
        match self {
            MigrationOutcome::UpdatedTree(tree) => Ok(tree),
            MigrationOutcome::Failed { error, failed_step, applied: _, tree: _ } => match failed_step {
                Some(i) => Err(MigrationError::OperationFailed(i, Box::new(error))),
                None => Err(error),
            },
        }
    }
}

impl<'a> RunnerState<'a> {
    /// An idle runner with the tree.
    pub fn new(tree: ConfigTree) -> (state: RunnerState<'a>)
        ensures
            state@ == (StateModel::Idle { tree: tree@ }),
    {
        RunnerState::Idle { tree }
    }

    /// The phase that the runner is in.
    pub fn phase(&self) -> (phase: Phase)
        ensures
            phase == phase_model(self@),
    {
        match self {
            RunnerState::Idle { .. } => Phase::Idle,
            RunnerState::Resolving { .. } => Phase::Resolving,
            RunnerState::Applying { .. } => Phase::Applying,
            RunnerState::Done(MigrationOutcome::UpdatedTree(_)) => Phase::Succeeded,
            RunnerState::Done(MigrationOutcome::Failed { .. }) => Phase::Failed,
        }
    }

    /// Asks an idle runner for a migration. The state is as
    /// [`request_model`] says.
    pub fn request(self, from: Version, to: Version, direction: Direction) -> (state: RunnerState<
        'a,
    >)
        ensures
            state@ == request_model(self@, from, to, direction),
    {
        match self {
            RunnerState::Idle { tree } => RunnerState::Resolving { tree, from, to, direction },
            other => other,
        }
    }

    /// Makes one transition. The state is as [`advance_model`] says.
    pub fn advance(self, registry: &'a Registry) -> (state: RunnerState<'a>)
        ensures
            state@ == advance_model(self@, registry@),
    {
        match self {
            RunnerState::Resolving { tree, from, to, direction } => {
                match registry.steps_between(from, to, direction) {
                    Ok(steps) => RunnerState::Applying { tree, steps, next: 0 },
                    Err(error) => {
                        let applied: Vec<&'a MigrationStep> = Vec::new();
                        assert(ref_views(applied@) =~= Seq::<StepModel>::empty());
                        RunnerState::Done(
                            MigrationOutcome::Failed { error, failed_step: None, applied, tree },
                        )
                    },
                }
            },
            RunnerState::Applying { tree, steps, next } => {
                if next < steps.len() {
                    let ghost all = ref_views(steps@);
                    assert(all[next as int].operation == steps[next as int].operation@);
                    match steps[next].operation.apply(&tree) {
                        Ok(changed) => RunnerState::Applying { tree: changed, steps, next: next + 1 },
                        Err(error) => {
                            let mut applied = steps;
                            applied.truncate(next);
                            assert(ref_views(applied@) =~= all.take(next as int));
                            RunnerState::Done(
                                MigrationOutcome::Failed {
                                    error,
                                    failed_step: Some(next),
                                    applied,
                                    tree,
                                },
                            )
                        },
                    }
                } else {
                    RunnerState::Done(MigrationOutcome::UpdatedTree(tree))
                }
            },
            other => other,
        }
    }

    /// Makes transitions until the run has ended, and hands out the outcome.
    /// An idle runner has no run to end: it is handed back as it is.
    pub fn finish(self, registry: &'a Registry) -> (r: Result<MigrationOutcome<'a>, RunnerState<'a>>)
        ensures
            match r {
                Ok(outcome) => end_model(self@, registry@) == Some(outcome@),
                Err(state) => self@ is Idle && state@ == self@,
            },
    {
        match self {
            RunnerState::Idle { tree } => Err(RunnerState::Idle { tree }),
            other => Ok(drive(other, registry)),
        }
    }
}

/// Makes transitions until the run has ended.
fn drive<'a>(start: RunnerState<'a>, registry: &'a Registry) -> (outcome: MigrationOutcome<'a>)
    requires
        !(start@ is Idle),
    ensures
        end_model(start@, registry@) == Some(outcome@),
{
    let mut state = start;
    loop
        invariant
            !(state@ is Idle),
            end_model(state@, registry@) == end_model(start@, registry@),
        decreases
                (if state@ is Resolving {
                    2int
                } else if state@ is Applying {
                    1int
                } else {
                    0int
                }),
                steps_left(state@),
    {
        match state {
            RunnerState::Done(outcome) => {
                return outcome;
            },
            other => {
                proof {
                    lemma_advance_keeps_end(other@, registry@);
                }
                state = other.advance(registry);
            },
        }
    }
}

/// Migrates the tree from version `from` to version `to` in the given
/// direction, with the steps of the registry. The outcome is as
/// [`run_model`] says.
pub fn run_migration<'a>(
    registry: &'a Registry,
    tree: ConfigTree,
    from: Version,
    to: Version,
    direction: Direction,
) -> (outcome: MigrationOutcome<'a>)
    ensures
        outcome@ == run_model(registry@, tree@, from, to, direction),
        from == to ==> outcome@ == OutcomeModel::UpdatedTree(tree@),
{
    drive(RunnerState::Resolving { tree, from, to, direction }, registry)
}

} // verus!
