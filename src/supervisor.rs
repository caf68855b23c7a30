//! Liveness of a supervised media process: a state machine from events
//! (spawn, settle timer, exit, shutdown) to the status written back to the
//! state and the next action.
use vstd::prelude::*;
use crate::ids::Status;

verus! {

/// Seconds a process must run without exiting to be considered online.
pub const SETTLE_SECS: u64 = 10;

/// A process failing again within this many seconds of its previous failure
/// is unstable.
pub const UNSTABLE_WINDOW_SECS: u64 = 15;

/// Seconds to wait after a failure before spawning the process again.
pub const RESPAWN_DELAY_SECS: u64 = 2;

/// Seconds a stopping process gets before it is killed.
pub const KILL_DEADLINE_SECS: u64 = 5;

/// Event observed by the supervisor of a process; times are in seconds.
#[derive(Clone, Copy, Debug, PartialEq, Eq, Structural)]
pub enum SupervisorEvent {
    /// The process is being spawned.
    Spawning { now: u64 },
    /// The process has run for `SETTLE_SECS` without exiting.
    Settled,
    /// The process exited without being asked to.
    Exited { now: u64 },
    /// The process is no longer wanted.
    ShutdownRequested,
}

/// What the supervisor asks for next.
#[derive(Clone, Copy, Debug, PartialEq, Eq, Structural)]
pub enum SupervisorAction {
    /// Launch the process and arm the settle timer.
    Launch,
    /// Keep waiting for the process.
    Wait,
    /// Wait the given seconds, then spawn the process again.
    RespawnAfter { secs: u64 },
    /// Stop the process gracefully: signal it twice, kill it after
    /// `KILL_DEADLINE_SECS`.
    Stop,
    /// Nothing more: the supervisor is finished.
    Done,
}

/// The status to record for a process moving to `status` at `now`, given
/// the time of its previous failure: unstable if that was less than
/// `UNSTABLE_WINDOW_SECS` ago.
pub open spec fn classify_spec(time_of_fail: Option<u64>, now: u64, status: Status) -> Status {
    match time_of_fail {
        Some(t) => if now < t || now - t < UNSTABLE_WINDOW_SECS { Status::Unstable } else { status },
        None => status,
    }
}

/// Computes the status to record for a process moving to `status` at `now`.
pub fn change_status(time_of_fail: Option<u64>, now: u64, status: Status) -> (r: Status)
    ensures
        r == classify_spec(time_of_fail, now, status),
{
    match time_of_fail {
        Some(t) => {
            if now < t || now - t < UNSTABLE_WINDOW_SECS {
                Status::Unstable
            } else {
                status
            }
        },
        None => status,
    }
}

/// Supervisor state of one process.
#[derive(Clone, Copy, Debug, PartialEq, Eq, Structural)]
pub struct Supervisor {
    /// When the process last failed, if it did.
    pub time_of_fail: Option<u64>,
    /// Whether the process is no longer wanted.
    pub finished: bool,
}

impl Supervisor {
    /// A supervisor of a process that has not failed yet.
    pub fn new() -> (r: Self)
        ensures
            r.time_of_fail is None,
            !r.finished,
    {
        Supervisor { time_of_fail: None, finished: false }
    }

    /// Takes one event: returns the status to record, if any, and the next
    /// action.
    pub fn on_event(&mut self, ev: SupervisorEvent) -> (r: (Option<Status>, SupervisorAction))
        ensures
            old(self).finished ==> *final(self) == *old(self) && r == (None::<Status>, SupervisorAction::Done),
            !old(self).finished ==> match ev {
                SupervisorEvent::Spawning { now } => *final(self) == *old(self)
                    && r == (Some(classify_spec(old(self).time_of_fail, now, Status::Initializing)), SupervisorAction::Launch),
                SupervisorEvent::Settled => *final(self) == *old(self)
                    && r == (Some(Status::Online), SupervisorAction::Wait),
                SupervisorEvent::Exited { now } => final(self).time_of_fail == Some(now) && !final(self).finished
                    && r == (Some(classify_spec(old(self).time_of_fail, now, Status::Offline)),
                        SupervisorAction::RespawnAfter { secs: RESPAWN_DELAY_SECS }),
                SupervisorEvent::ShutdownRequested => final(self).finished
                    && final(self).time_of_fail == old(self).time_of_fail
                    && r == (Some(Status::Offline), SupervisorAction::Stop),
            },
    {
        if self.finished {
            return (None, SupervisorAction::Done);
        }
        match ev {
            SupervisorEvent::Spawning { now } => {
                (Some(change_status(self.time_of_fail, now, Status::Initializing)), SupervisorAction::Launch)
            },
            SupervisorEvent::Settled => (Some(Status::Online), SupervisorAction::Wait),
            SupervisorEvent::Exited { now } => {
                let status = change_status(self.time_of_fail, now, Status::Offline);
                self.time_of_fail = Some(now);
                (Some(status), SupervisorAction::RespawnAfter { secs: RESPAWN_DELAY_SECS })
            },
            SupervisorEvent::ShutdownRequested => {
                self.finished = true;
                (Some(Status::Offline), SupervisorAction::Stop)
            },
        }
    }
}

/// Signal number of a termination request.
pub const SIGTERM: i32 = 15;

/// Whether a stopped process stopped cleanly: exit code `0` or `255`, or
/// killed by `SIGTERM`.
pub fn stopped_cleanly(code: Option<i32>, signal: Option<i32>) -> (r: bool)
    ensures
        r == (code == Some(0i32) || code == Some(255i32) || signal == Some(SIGTERM)),
{
    match (code, signal) {
        (Some(0), _) => true,
        (Some(255), _) => true,
        (_, Some(15)) => true,
        _ => false,
    }
}

} // verus!
