//! The stages, and the order in which the steps of a stage are taken.
//!
//! A stage checks whether what it gives is already there; if it is, the stage
//! is done. If not, it creates the file for it, extracts its input,
//! transforms it and loads the result into the file, and stops at the first
//! step that fails. The steps themselves touch files and are taken by the
//! caller; which step comes next is decided here.

use vstd::prelude::*;

pub mod parse_osm;
pub mod semantic_map;

verus! {

/// A step of a stage.
#[derive(Clone, Copy, Debug, PartialEq, Eq, Structural)]
pub enum Step {
    /// See whether the output is already there.
    CheckCache,
    /// Create the file for the output.
    CreateOutput,
    /// Get the input.
    Extract,
    /// Make the output of the input.
    Transform,
    /// Write the output to its file.
    Load,
}

/// How a step went.
#[derive(Clone, Copy, Debug, PartialEq, Eq, Structural)]
pub enum StepResult {
    /// The output is already there.
    Hit,
    /// The output is not there yet.
    Miss,
    /// The step did its work.
    Done,
    /// The step failed.
    Failed,
}

/// What follows a step.
#[derive(Clone, Copy, Debug, PartialEq, Eq, Structural)]
pub enum Next {
    /// Take this step.
    Run(Step),
    /// The stage is done; `cached` says that its output was already there.
    Finished { cached: bool },
    /// The stage has failed at this step.
    Failed(Step),
}

/// What follows `step` when it went as `result` says. A check of the cache
/// answers with a hit or a miss, any other step with done; any other answer
/// counts as a failure of the step.
pub open spec fn next_of(step: Step, result: StepResult) -> Next {
    match (step, result) {
        (Step::CheckCache, StepResult::Hit) => Next::Finished { cached: true },
        (Step::CheckCache, StepResult::Miss) => Next::Run(Step::CreateOutput),
        (Step::CreateOutput, StepResult::Done) => Next::Run(Step::Extract),
        (Step::Extract, StepResult::Done) => Next::Run(Step::Transform),
        (Step::Transform, StepResult::Done) => Next::Run(Step::Load),
        (Step::Load, StepResult::Done) => Next::Finished { cached: false },
        _ => Next::Failed(step),
    }
}

/// The step with which a stage begins.
pub fn first_step() -> (step: Step)
    ensures
        step == Step::CheckCache,
{
    Step::CheckCache
}

/// What follows `step` when it went as `result` says.
pub fn advance(step: Step, result: StepResult) -> (next: Next)
    ensures
        next == next_of(step, result),
{
    match step {
        Step::CheckCache => match result {
            StepResult::Hit => Next::Finished { cached: true },
            StepResult::Miss => Next::Run(Step::CreateOutput),
            _ => Next::Failed(step),
        },
        Step::CreateOutput => match result {
            StepResult::Done => Next::Run(Step::Extract),
            _ => Next::Failed(step),
        },
        Step::Extract => match result {
            StepResult::Done => Next::Run(Step::Transform),
            _ => Next::Failed(step),
        },
        Step::Transform => match result {
            StepResult::Done => Next::Run(Step::Load),
            _ => Next::Failed(step),
        },
        Step::Load => match result {
            StepResult::Done => Next::Finished { cached: false },
            _ => Next::Failed(step),
        },
    }
}

/// Whether cleaning has a file to remove: only a file that is there is
/// removed.
pub fn clean_removes(cached: bool) -> (remove: bool)
    ensures
        remove == cached,
{
    cached
}

/// A run of a stage, as far as the order of its steps goes: the steps taken
/// so far, and whether the output file is there.
pub struct Run {
    pub taken: Seq<Step>,
    pub output_exists: bool,
}

/// How a step goes in a run in which no step fails: the check of the cache
/// says whether the file is there, and every other step does its work.
pub open spec fn unfailing(step: Step, output_exists: bool) -> StepResult {
    match step {
        Step::CheckCache => if output_exists {
            StepResult::Hit
        } else {
            StepResult::Miss
        },
        _ => StepResult::Done,
    }
}

/// A run in which no step fails, from `step` on, for at most `fuel` steps.
/// Creating the output makes the file be there.
pub open spec fn run_from(run: Run, step: Step, fuel: nat) -> Run
    decreases fuel,
{
    if fuel == 0 {
        run
    } else {
        let after = Run {
            taken: run.taken.push(step),
            output_exists: run.output_exists || step == Step::CreateOutput,
        };
        match next_of(step, unfailing(step, run.output_exists)) {
            Next::Run(following) => run_from(after, following, (fuel - 1) as nat),
            _ => after,
        }
    }
}

/// One whole run of a stage in which no step fails, given whether the
/// output file is there before it.
pub open spec fn process_run(output_exists: bool) -> Run {
    run_from(Run { taken: Seq::empty(), output_exists }, Step::CheckCache, 5)
}

/// A stage whose output is there does no work: it checks the cache and is
/// done.
pub proof fn lemma_cache_hit_does_no_work()
    ensures
        next_of(Step::CheckCache, StepResult::Hit) == (Next::Finished { cached: true }),
        process_run(true).taken == seq![Step::CheckCache],
{
    reveal_with_fuel(run_from, 6);
    assert(process_run(true).taken =~= seq![Step::CheckCache]);
}

/// A stage takes its steps once: after a run in which no step fails the
/// output is there, whether or not it was there before, and a run after it
/// only checks the cache. A first run takes all five steps in order.
pub proof fn lemma_second_run_does_no_work(output_exists: bool)
    ensures
        process_run(output_exists).output_exists,
        process_run(process_run(output_exists).output_exists).taken == seq![Step::CheckCache],
        !output_exists ==> process_run(output_exists).taken == seq![
            Step::CheckCache,
            Step::CreateOutput,
            Step::Extract,
            Step::Transform,
            Step::Load,
        ],
{
    reveal_with_fuel(run_from, 6);
    assert(process_run(true).taken =~= seq![Step::CheckCache]);
    if !output_exists {
        assert(process_run(false).taken =~= seq![
            Step::CheckCache,
            Step::CreateOutput,
            Step::Extract,
            Step::Transform,
            Step::Load,
        ]);
    }
}

/// The first step that fails ends the stage: nothing follows a failure.
pub proof fn lemma_failure_stops(step: Step)
    ensures
        next_of(step, StepResult::Failed) == Next::Failed(step),
{
}

} // verus!
