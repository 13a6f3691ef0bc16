//! The origin supervisor's control plane: its lifecycle state machine,
//! the classification of delivered signals, the workload exit-code rule,
//! and the signal-mask discipline of its threads.
//!
//! The supervisor's loop performs the outside work (fork, wait, listen);
//! every decision it takes comes from here.

use vstd::prelude::*;

use crate::error::Error;

verus! {

/// The CHLD signal number. It is the one signal the supervisor neither
/// ignores nor forwards: ignoring it would change the semantics of wait,
/// and forwarding it to the workload would be meaningless.
pub const SIGCHLD: i32 = 17;

// ---------------------------------------------------------------------------
// Signal classification
// ---------------------------------------------------------------------------

/// What the signal waiter does with one delivered signal.
#[derive(Debug, Clone, Copy, PartialEq, Eq, Structural)]
pub enum SignalDisposition {
    /// The signal is in the configured escape set: begin the escape.
    Escape,
    /// Deliver the signal to the workload child.
    Forward,
    /// CHLD is consumed silently.
    Absorb,
}

pub open spec fn spec_classify_signal(escape_set: Seq<i32>, sig: i32) -> SignalDisposition {
    if escape_set.contains(sig) {
        SignalDisposition::Escape
    } else if sig == SIGCHLD {
        SignalDisposition::Absorb
    } else {
        SignalDisposition::Forward
    }
}

/// Classify one delivered signal against the configured escape set.
pub fn classify_signal(escape_set: &Vec<i32>, sig: i32) -> (r: SignalDisposition)
    ensures
        r == spec_classify_signal(escape_set@, sig),
{
    let mut i: usize = 0;
    while i < escape_set.len()
        invariant
            i <= escape_set@.len(),
            forall|j: int| 0 <= j < i ==> escape_set@[j] != sig,
        decreases escape_set@.len() - i,
    {
        if escape_set[i] == sig {
            assert(escape_set@.contains(sig));
            return SignalDisposition::Escape;
        }
        i = i + 1;
    }
    assert(!escape_set@.contains(sig));
    if sig == SIGCHLD {
        SignalDisposition::Absorb
    } else {
        SignalDisposition::Forward
    }
}

// ---------------------------------------------------------------------------
// Workload exit codes
// ---------------------------------------------------------------------------

/// How the workload's wait status was reported.
#[derive(Debug, Clone, Copy, PartialEq, Eq, Structural)]
pub enum WaitOutcome {
    /// Normal exit with a status code.
    Exited(i32),
    /// Terminated by a signal.
    Signaled(i32),
    /// Stopped, not terminated: the watcher publishes nothing.
    Stopped,
}

/// The supervisor's exit code for a workload wait status: the status
/// itself on normal exit, 128 plus the signal number on signal death,
/// and nothing on a stop notification.
pub fn exit_code_of_wait(w: WaitOutcome) -> (r: Option<i32>)
    requires
        w matches WaitOutcome::Signaled(s) ==> 1 <= s <= 64,
    ensures
        match w {
            WaitOutcome::Exited(c) => r == Some(c),
            WaitOutcome::Signaled(s) => r == Some((128 + s) as i32),
            WaitOutcome::Stopped => r is None,
        },
{
    match w {
        WaitOutcome::Exited(c) => Some(c),
        WaitOutcome::Signaled(s) => Some(128 + s),
        WaitOutcome::Stopped => None,
    }
}

// ---------------------------------------------------------------------------
// The lifecycle state machine
// ---------------------------------------------------------------------------

/// Where the origin supervisor stands.
#[derive(Debug, Clone, Copy, PartialEq, Eq, Structural)]
pub enum SupervisorState {
    /// Waiting on the channel for the first event.
    WaitingForChildOrSignal,
    /// An escape signal arrived; the launch-pod command is running.
    LaunchingPod,
    /// The launch pod succeeded; waiting for the destination to connect.
    AwaitingDestination,
    /// A destination is connected; the freeze is streaming.
    Freezing,
    /// The session is over; the process exits with the recorded code.
    Done,
}

/// What the supervisor's loop observes.
#[derive(Debug, Clone, Copy, PartialEq, Eq, Structural)]
pub enum SupervisorEvent {
    /// The waiter published an escape signal.
    EscapeSignal(i32),
    /// The watcher published the workload's exit code.
    ChildExited(i32),
    /// The launch-pod command exited with this code.
    PodExited(i32),
    /// A destination connected to the advertised port.
    DestinationConnected,
    /// The freeze session finished (streamed and closed) or failed.
    FreezeEnded(bool),
}

/// What the loop must do next.
#[derive(Debug, Clone, Copy, PartialEq, Eq, Structural)]
pub enum SupervisorAction {
    /// Keep waiting for events.
    Wait,
    /// Run the launch-pod command with the advertised port.
    RunLaunchPod,
    /// Accept one destination connection.
    AcceptDestination,
    /// Stop the workload tree, capture it, and stream the session.
    Freeze,
    /// Exit the supervisor with this code.
    Exit(i32),
    /// Abort with this error, exiting non-zero.
    Fail(Error),
}

pub open spec fn spec_supervisor_step(st: SupervisorState, ev: SupervisorEvent) -> (
    SupervisorState,
    SupervisorAction,
) {
    match (st, ev) {
        (SupervisorState::WaitingForChildOrSignal, SupervisorEvent::ChildExited(code)) => (
            SupervisorState::Done,
            SupervisorAction::Exit(code),
        ),
        (SupervisorState::WaitingForChildOrSignal, SupervisorEvent::EscapeSignal(_)) => (
            SupervisorState::LaunchingPod,
            SupervisorAction::RunLaunchPod,
        ),
        (SupervisorState::LaunchingPod, SupervisorEvent::PodExited(code)) => if code == 0 {
            (SupervisorState::AwaitingDestination, SupervisorAction::AcceptDestination)
        } else {
            (SupervisorState::Done, SupervisorAction::Fail(Error::LaunchPodFailed))
        },
        (SupervisorState::AwaitingDestination, SupervisorEvent::DestinationConnected) => (
            SupervisorState::Freezing,
            SupervisorAction::Freeze,
        ),
        (SupervisorState::Freezing, SupervisorEvent::FreezeEnded(ok)) => if ok {
            (SupervisorState::Done, SupervisorAction::Exit(0))
        } else {
            (SupervisorState::Done, SupervisorAction::Fail(Error::IoError))
        },
        (SupervisorState::Done, _) => (SupervisorState::Done, SupervisorAction::Wait),
        _ => (st, SupervisorAction::Wait),
    }
}

/// Advance the supervisor on one event. The workload's exit code passes
/// through unchanged; a failing launch pod ends the run with
/// `LaunchPodFailed`; a clean freeze ends the run with exit code zero.
/// An event that does not belong to the state is ignored.
pub fn supervisor_step(st: SupervisorState, ev: SupervisorEvent) -> (r: (
    SupervisorState,
    SupervisorAction,
))
    ensures
        r == spec_supervisor_step(st, ev),
{
    match (st, ev) {
        (SupervisorState::WaitingForChildOrSignal, SupervisorEvent::ChildExited(code)) => (
            SupervisorState::Done,
            SupervisorAction::Exit(code),
        ),
        (SupervisorState::WaitingForChildOrSignal, SupervisorEvent::EscapeSignal(_)) => (
            SupervisorState::LaunchingPod,
            SupervisorAction::RunLaunchPod,
        ),
        (SupervisorState::LaunchingPod, SupervisorEvent::PodExited(code)) => if code == 0 {
            (SupervisorState::AwaitingDestination, SupervisorAction::AcceptDestination)
        } else {
            (SupervisorState::Done, SupervisorAction::Fail(Error::LaunchPodFailed))
        },
        (SupervisorState::AwaitingDestination, SupervisorEvent::DestinationConnected) => (
            SupervisorState::Freezing,
            SupervisorAction::Freeze,
        ),
        (SupervisorState::Freezing, SupervisorEvent::FreezeEnded(ok)) => if ok {
            (SupervisorState::Done, SupervisorAction::Exit(0))
        } else {
            (SupervisorState::Done, SupervisorAction::Fail(Error::IoError))
        },
        (SupervisorState::Done, _) => (SupervisorState::Done, SupervisorAction::Wait),
        _ => (st, SupervisorAction::Wait),
    }
}

/// The origin's role is decided once at startup: with an origin address
/// in hand this instance is the destination and connects back; without
/// one it is the origin.
#[derive(Debug, Clone, Copy, PartialEq, Eq, Structural)]
pub enum Role {
    Origin,
    Destination,
}

pub fn role_of(has_origin_addr: bool) -> (r: Role)
    ensures
        r == (if has_origin_addr {
            Role::Destination
        } else {
            Role::Origin
        }),
{
    if has_origin_addr {
        Role::Destination
    } else {
        Role::Origin
    }
}

// ---------------------------------------------------------------------------
// Signal-mask discipline
// ---------------------------------------------------------------------------

/// One step of the supervisor's signal setup, in program order.
#[derive(Debug, Clone, Copy, PartialEq, Eq, Structural)]
pub enum MaskOp {
    /// Install ignore handlers for every signal except CHLD.
    IgnoreAllButChld,
    /// Block every signal on the calling (main) thread.
    BlockAllSignals,
    /// Spawn the signal waiter; it inherits the caller's mask and consumes
    /// signals with a synchronous wait, never by unblocking them.
    SpawnWaiter,
    /// Spawn the child watcher; it inherits the caller's mask.
    SpawnWatcher,
}

/// The mask state of the supervisor process: whether the main thread
/// blocks every signal, and, for each spawned thread in order, whether it
/// does.
pub ghost struct MaskState {
    pub main_blocks_all: bool,
    pub thread_blocks_all: Seq<bool>,
}

pub open spec fn apply_mask_op(st: MaskState, op: MaskOp) -> MaskState {
    match op {
        MaskOp::IgnoreAllButChld => st,
        MaskOp::BlockAllSignals => MaskState {
            main_blocks_all: true,
            thread_blocks_all: st.thread_blocks_all,
        },
        MaskOp::SpawnWaiter => MaskState {
            main_blocks_all: st.main_blocks_all,
            thread_blocks_all: st.thread_blocks_all.push(st.main_blocks_all),
        },
        MaskOp::SpawnWatcher => MaskState {
            main_blocks_all: st.main_blocks_all,
            thread_blocks_all: st.thread_blocks_all.push(st.main_blocks_all),
        },
    }
}

pub open spec fn apply_mask_ops(st: MaskState, ops: Seq<MaskOp>) -> MaskState
    decreases ops.len(),
{
    if ops.len() == 0 {
        st
    } else {
        apply_mask_ops(apply_mask_op(st, ops[0]), ops.skip(1))
    }
}

/// The setup the supervisor performs before its first wait, in order:
/// ignore everything but CHLD, block everything on the main thread, and
/// only then spawn the two workers, which inherit the blocked mask.
pub fn supervisor_signal_plan() -> (r: Vec<MaskOp>)
    ensures
        r@ == seq![
            MaskOp::IgnoreAllButChld,
            MaskOp::BlockAllSignals,
            MaskOp::SpawnWaiter,
            MaskOp::SpawnWatcher,
        ],
{
    let mut v: Vec<MaskOp> = Vec::new();
    v.push(MaskOp::IgnoreAllButChld);
    v.push(MaskOp::BlockAllSignals);
    v.push(MaskOp::SpawnWaiter);
    v.push(MaskOp::SpawnWatcher);
    assert(v@ =~= seq![
        MaskOp::IgnoreAllButChld,
        MaskOp::BlockAllSignals,
        MaskOp::SpawnWaiter,
        MaskOp::SpawnWatcher,
    ]);
    v
}

/// Signal-wait safety: after the setup plan runs, every thread of the
/// supervisor blocks every signal — the main thread and both workers —
/// so no signal is unblocked anywhere. The waiter alone consumes
/// signals, synchronously, without unblocking them.
pub proof fn lemma_signal_wait_safety(start: MaskState)
    requires
        start.thread_blocks_all.len() == 0,
    ensures
        ({
            let end = apply_mask_ops(
                start,
                seq![
                    MaskOp::IgnoreAllButChld,
                    MaskOp::BlockAllSignals,
                    MaskOp::SpawnWaiter,
                    MaskOp::SpawnWatcher,
                ],
            );
            &&& end.main_blocks_all
            &&& end.thread_blocks_all.len() == 2
            &&& (forall|i: int|
                0 <= i < end.thread_blocks_all.len() ==> #[trigger] end.thread_blocks_all[i])
        }),
{
    let ops = seq![
        MaskOp::IgnoreAllButChld,
        MaskOp::BlockAllSignals,
        MaskOp::SpawnWaiter,
        MaskOp::SpawnWatcher,
    ];
    let s1 = apply_mask_op(start, ops[0]);
    let s2 = apply_mask_op(s1, ops[1]);
    let s3 = apply_mask_op(s2, ops[2]);
    let s4 = apply_mask_op(s3, ops[3]);
    assert(ops.skip(1) =~= seq![MaskOp::BlockAllSignals, MaskOp::SpawnWaiter, MaskOp::SpawnWatcher]);
    assert(ops.skip(1).skip(1) =~= seq![MaskOp::SpawnWaiter, MaskOp::SpawnWatcher]);
    assert(ops.skip(1).skip(1).skip(1) =~= seq![MaskOp::SpawnWatcher]);
    assert(ops.skip(1).skip(1).skip(1).skip(1) =~= Seq::<MaskOp>::empty());
    assert(apply_mask_ops(start, ops) == apply_mask_ops(s1, ops.skip(1)));
    assert(apply_mask_ops(s1, ops.skip(1)) == apply_mask_ops(s2, ops.skip(1).skip(1)));
    assert(apply_mask_ops(s2, ops.skip(1).skip(1)) == apply_mask_ops(
        s3,
        ops.skip(1).skip(1).skip(1),
    ));
    assert(apply_mask_ops(s3, ops.skip(1).skip(1).skip(1)) == apply_mask_ops(
        s4,
        ops.skip(1).skip(1).skip(1).skip(1),
    ));
    assert(s4.thread_blocks_all =~= seq![true, true]);
}

} // verus!
