use escapepod::error::Error;
use escapepod::supervisor::{
    classify_signal, exit_code_of_wait, role_of, supervisor_signal_plan, supervisor_step, MaskOp,
    Role, SignalDisposition, SupervisorAction, SupervisorEvent, SupervisorState, WaitOutcome,
};

#[test]
fn escape_signals_trigger_escape() {
    let set = vec![10, 12];
    assert_eq!(classify_signal(&set, 10), SignalDisposition::Escape);
    assert_eq!(classify_signal(&set, 12), SignalDisposition::Escape);
}

#[test]
fn other_signals_are_forwarded_and_chld_absorbed() {
    let set = vec![10];
    assert_eq!(classify_signal(&set, 2), SignalDisposition::Forward);
    assert_eq!(classify_signal(&set, 15), SignalDisposition::Forward);
    assert_eq!(classify_signal(&set, 17), SignalDisposition::Absorb);
}

#[test]
fn exit_codes_pass_through_and_signals_add_128() {
    assert_eq!(exit_code_of_wait(WaitOutcome::Exited(64)), Some(64));
    // SIGINT is 2: a workload killed by it exits 130.
    assert_eq!(exit_code_of_wait(WaitOutcome::Signaled(2)), Some(130));
    assert_eq!(exit_code_of_wait(WaitOutcome::Stopped), None);
}

#[test]
fn child_exit_ends_the_run_with_its_code() {
    let (st, act) = supervisor_step(
        SupervisorState::WaitingForChildOrSignal,
        SupervisorEvent::ChildExited(64),
    );
    assert_eq!(st, SupervisorState::Done);
    assert_eq!(act, SupervisorAction::Exit(64));
}

#[test]
fn escape_runs_the_full_pipeline() {
    let (st, act) = supervisor_step(
        SupervisorState::WaitingForChildOrSignal,
        SupervisorEvent::EscapeSignal(10),
    );
    assert_eq!(st, SupervisorState::LaunchingPod);
    assert_eq!(act, SupervisorAction::RunLaunchPod);

    let (st, act) = supervisor_step(st, SupervisorEvent::PodExited(0));
    assert_eq!(st, SupervisorState::AwaitingDestination);
    assert_eq!(act, SupervisorAction::AcceptDestination);

    let (st, act) = supervisor_step(st, SupervisorEvent::DestinationConnected);
    assert_eq!(st, SupervisorState::Freezing);
    assert_eq!(act, SupervisorAction::Freeze);

    let (st, act) = supervisor_step(st, SupervisorEvent::FreezeEnded(true));
    assert_eq!(st, SupervisorState::Done);
    assert_eq!(act, SupervisorAction::Exit(0));
}

#[test]
fn failing_pod_ends_the_run() {
    let (st, act) = supervisor_step(SupervisorState::LaunchingPod, SupervisorEvent::PodExited(3));
    assert_eq!(st, SupervisorState::Done);
    assert_eq!(act, SupervisorAction::Fail(Error::LaunchPodFailed));
}

#[test]
fn stray_events_are_ignored() {
    let (st, act) = supervisor_step(
        SupervisorState::WaitingForChildOrSignal,
        SupervisorEvent::DestinationConnected,
    );
    assert_eq!(st, SupervisorState::WaitingForChildOrSignal);
    assert_eq!(act, SupervisorAction::Wait);
}

#[test]
fn role_follows_the_origin_address() {
    assert_eq!(role_of(true), Role::Destination);
    assert_eq!(role_of(false), Role::Origin);
}

#[test]
fn signal_plan_blocks_before_spawning() {
    let plan = supervisor_signal_plan();
    assert_eq!(
        plan,
        vec![
            MaskOp::IgnoreAllButChld,
            MaskOp::BlockAllSignals,
            MaskOp::SpawnWaiter,
            MaskOp::SpawnWatcher,
        ]
    );
    // Both worker spawns come after the mask is fully blocked.
    let block_at = plan.iter().position(|o| *o == MaskOp::BlockAllSignals).unwrap();
    let waiter_at = plan.iter().position(|o| *o == MaskOp::SpawnWaiter).unwrap();
    let watcher_at = plan.iter().position(|o| *o == MaskOp::SpawnWatcher).unwrap();
    assert!(block_at < waiter_at && block_at < watcher_at);
}

#[test]
fn errors_describe_themselves() {
    assert_eq!(Error::NoSafeHole.describe(), "no safe hole in the target address space");
    assert_eq!(Error::LaunchPodFailed.describe(), "launch pod command failed");
}
