use tend::exec::{Action, ChainExecutor, Event, RunState, StepOutcome, commit_message};
use tend::UpdateStep;

fn step(repo: &str, inputs: &[&str]) -> UpdateStep {
    UpdateStep {
        repo: repo.to_string(),
        inputs: inputs.iter().map(|s| s.to_string()).collect(),
    }
}

fn is_running(e: &ChainExecutor) -> bool {
    matches!(e.state, RunState::Running)
}

#[test]
fn commit_message_joins_inputs_with_spaces() {
    assert_eq!(
        commit_message(&vec!["core".to_string(), "util".to_string()]),
        "chore: update core util"
    );
    assert_eq!(commit_message(&vec!["a".to_string()]), "chore: update a");
    assert_eq!(commit_message(&Vec::new()), "chore: update ");
}

#[test]
fn dry_run_reports_every_step_skipped_in_order_and_runs_nothing() {
    let chain = vec![step("B", &["A"]), step("C", &["B"])];
    let mut e = ChainExecutor::new(chain, true);
    let mut checks = 0;
    loop {
        match e.next_action() {
            Action::CheckRepo { repo } => {
                if checks == 0 {
                    assert_eq!(repo, "B");
                } else {
                    assert_eq!(repo, "C");
                }
                checks += 1;
                e.apply(Event::RepoChecked { exists: true });
            }
            Action::Done => break,
            other => panic!(
                "dry run asked for a forbidden action: {}",
                match other {
                    Action::CheckClean { .. } => "clean check",
                    Action::RunUpdate { .. } => "update",
                    Action::StageDescriptor { .. } => "stage",
                    Action::Commit { .. } => "commit",
                    Action::Push { .. } => "push",
                    _ => "?",
                }
            ),
        }
    }
    assert_eq!(checks, 2);
    assert!(matches!(e.state, RunState::Complete));
    assert_eq!(e.outcomes.len(), 2);
    assert!(e.outcomes.iter().all(|o| matches!(o, StepOutcome::Skipped)));
}

/// Drives one step through the full applied path.
fn drive_step_applied(e: &mut ChainExecutor) {
    assert!(matches!(e.next_action(), Action::CheckRepo { .. }));
    e.apply(Event::RepoChecked { exists: true });
    assert!(matches!(e.next_action(), Action::CheckClean { .. }));
    e.apply(Event::CleanChecked { clean: true });
    assert!(matches!(e.next_action(), Action::RunUpdate { .. }));
    e.apply(Event::UpdateRan { ok: true, detail: String::new() });
    assert!(matches!(e.next_action(), Action::StageDescriptor { .. }));
    e.apply(Event::Staged { ok: true, empty: false, detail: String::new() });
    assert!(matches!(e.next_action(), Action::Commit { .. }));
    e.apply(Event::Committed { ok: true, detail: String::new() });
    assert!(matches!(e.next_action(), Action::Push { .. }));
    e.apply(Event::Pushed { ok: true, detail: String::new() });
}

#[test]
fn failing_update_on_step_two_stops_before_step_three() {
    let chain = vec![step("B", &["A"]), step("C", &["B"]), step("D", &["C"])];
    let mut e = ChainExecutor::new(chain, false);
    drive_step_applied(&mut e);
    assert!(is_running(&e));
    assert_eq!(e.outcomes.len(), 1);
    assert!(matches!(e.outcomes[0], StepOutcome::Applied));

    // step two: the resolution command fails
    e.apply(Event::RepoChecked { exists: true });
    e.apply(Event::CleanChecked { clean: true });
    match e.next_action() {
        Action::RunUpdate { repo, inputs } => {
            assert_eq!(repo, "C");
            assert_eq!(inputs, vec!["B".to_string()]);
        }
        _ => panic!("expected the resolution action"),
    }
    e.apply(Event::UpdateRan { ok: false, detail: "boom".to_string() });

    match &e.state {
        RunState::Failed { error } => match error {
            tend::exec::ExecError::UpdateFailed { repo, detail } => {
                assert_eq!(repo, "C");
                assert_eq!(detail, "boom");
            }
            _ => panic!("wrong error kind"),
        },
        _ => panic!("the run must have failed"),
    }
    // step two has no outcome and step three is never attempted
    assert_eq!(e.outcomes.len(), 1);
    assert!(matches!(e.next_action(), Action::Done));
}

#[test]
fn unchanged_descriptor_is_recorded_and_the_run_continues() {
    let chain = vec![step("B", &["A"]), step("C", &["B", "A"])];
    let mut e = ChainExecutor::new(chain, false);
    // step one resolves to an identical lock state: nothing committed
    e.apply(Event::RepoChecked { exists: true });
    e.apply(Event::CleanChecked { clean: true });
    e.apply(Event::UpdateRan { ok: true, detail: String::new() });
    e.apply(Event::Staged { ok: true, empty: true, detail: String::new() });
    assert!(is_running(&e));
    assert_eq!(e.outcomes.len(), 1);
    assert!(matches!(e.outcomes[0], StepOutcome::Unchanged));
    // step two still runs, with its planned inputs intact
    match e.next_action() {
        Action::CheckRepo { repo } => assert_eq!(repo, "C"),
        _ => panic!("expected the existence check for the next step"),
    }
    drive_step_applied(&mut e);
    assert!(matches!(e.state, RunState::Complete));
    assert_eq!(e.outcomes.len(), 2);
    assert!(matches!(e.outcomes[1], StepOutcome::Applied));
}

#[test]
fn missing_working_tree_is_fatal() {
    let chain = vec![step("B", &["A"]), step("C", &["B"])];
    let mut e = ChainExecutor::new(chain, false);
    e.apply(Event::RepoChecked { exists: false });
    match &e.state {
        RunState::Failed { error } => match error {
            tend::exec::ExecError::MissingRepo { repo } => assert_eq!(repo, "B"),
            _ => panic!("wrong error kind"),
        },
        _ => panic!("the run must have failed"),
    }
    assert!(e.outcomes.is_empty());
    assert!(matches!(e.next_action(), Action::Done));
}

#[test]
fn dirty_working_tree_is_fatal() {
    let chain = vec![step("B", &["A"])];
    let mut e = ChainExecutor::new(chain, false);
    e.apply(Event::RepoChecked { exists: true });
    e.apply(Event::CleanChecked { clean: false });
    match &e.state {
        RunState::Failed { error } => {
            assert!(matches!(error, tend::exec::ExecError::DirtyTree { .. }));
        }
        _ => panic!("the run must have failed"),
    }
}

#[test]
fn commit_and_push_failures_carry_the_diagnostic() {
    let chain = vec![step("B", &["A"])];
    let mut e = ChainExecutor::new(chain, false);
    e.apply(Event::RepoChecked { exists: true });
    e.apply(Event::CleanChecked { clean: true });
    e.apply(Event::UpdateRan { ok: true, detail: String::new() });
    e.apply(Event::Staged { ok: true, empty: false, detail: String::new() });
    match e.next_action() {
        Action::Commit { repo, message } => {
            assert_eq!(repo, "B");
            assert_eq!(message, "chore: update A");
        }
        _ => panic!("expected the commit action"),
    }
    e.apply(Event::Committed { ok: false, detail: "denied".to_string() });
    match &e.state {
        RunState::Failed { error } => match error {
            tend::exec::ExecError::CommitFailed { repo, detail } => {
                assert_eq!(repo, "B");
                assert_eq!(detail, "denied");
            }
            _ => panic!("wrong error kind"),
        },
        _ => panic!("the run must have failed"),
    }
}

#[test]
fn empty_chain_completes_immediately() {
    let e = ChainExecutor::new(Vec::new(), false);
    assert!(matches!(e.state, RunState::Complete));
    assert!(matches!(e.next_action(), Action::Done));
}
