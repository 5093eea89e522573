use osm_semantic::errors::{Error, ErrorKind};
use osm_semantic::etl::{advance, clean_removes, first_step, Next, Step, StepResult};

fn run(cached: bool, fails_at: Option<Step>) -> (Vec<Step>, Next) {
    let mut taken = Vec::new();
    let mut step = first_step();
    loop {
        taken.push(step);
        let result = if Some(step) == fails_at {
            StepResult::Failed
        } else if step == Step::CheckCache {
            if cached {
                StepResult::Hit
            } else {
                StepResult::Miss
            }
        } else {
            StepResult::Done
        };
        match advance(step, result) {
            Next::Run(next) => step = next,
            end => return (taken, end),
        }
    }
}

#[test]
fn a_stage_takes_its_steps_in_order() {
    let (taken, end) = run(false, None);
    assert_eq!(
        taken,
        vec![Step::CheckCache, Step::CreateOutput, Step::Extract, Step::Transform, Step::Load]
    );
    assert_eq!(end, Next::Finished { cached: false });
}

#[test]
fn a_second_run_does_no_work() {
    let (first, _) = run(false, None);
    assert!(first.contains(&Step::CreateOutput));
    let (second, end) = run(true, None);
    assert_eq!(second, vec![Step::CheckCache]);
    assert_eq!(end, Next::Finished { cached: true });
}

#[test]
fn the_first_failure_ends_the_stage() {
    for (at, before) in [
        (Step::CheckCache, 1),
        (Step::CreateOutput, 2),
        (Step::Extract, 3),
        (Step::Transform, 4),
        (Step::Load, 5),
    ] {
        let (taken, end) = run(false, Some(at));
        assert_eq!(taken.len(), before);
        assert_eq!(end, Next::Failed(at));
    }
}

#[test]
fn an_answer_that_does_not_fit_the_step_counts_as_a_failure() {
    assert_eq!(advance(Step::CheckCache, StepResult::Done), Next::Failed(Step::CheckCache));
    assert_eq!(advance(Step::Extract, StepResult::Hit), Next::Failed(Step::Extract));
    assert_eq!(advance(Step::Load, StepResult::Miss), Next::Failed(Step::Load));
}

#[test]
fn cleaning_removes_only_what_is_there() {
    assert!(clean_removes(true));
    assert!(!clean_removes(false));
}

#[test]
fn an_error_carries_its_kind_and_its_message() {
    let e = Error::new(ErrorKind::Reference, "way 7 is unknown");
    assert_eq!(e.kind, ErrorKind::Reference);
    assert_eq!(e.message, "way 7 is unknown");
    let e = Error::from("disk full".to_string());
    assert_eq!(e.kind, ErrorKind::Other);
    assert_eq!(e.message, "disk full");
}
