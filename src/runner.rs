use vstd::prelude::*;

verus! {

/// Where one script is in its lifecycle. Times are nanoseconds since the Unix
/// epoch; a run is identified by its start time.
#[derive(Clone, Copy, Debug, PartialEq, Eq, Structural)]
pub enum Status {
    Off,
    Running { start_time: u64 },
    Completed { status: i32, start_time: u64 },
}

/// What happens to a script.
#[derive(Clone, Copy, Debug, PartialEq, Eq, Structural)]
pub enum ScriptEvent {
    /// The user (or a looping script) asks for a run, at time `now`.
    Run { now: u64 },
    /// The user asks to stop the run that started at `start_time`.
    Kill { start_time: u64 },
    /// The run that started at `start_time` exited with `status`.
    Complete { status: i32, start_time: u64 },
    /// The completion display of the run that started at `start_time` expires.
    ClearStatus { start_time: u64 },
}

/// What the host must do after a script event.
#[derive(Clone, Copy, Debug, PartialEq, Eq, Structural)]
pub enum ScriptAction {
    Nothing,
    /// Start the script; this run is identified by `start_time`.
    Spawn { start_time: u64 },
    /// Ask the running script to terminate.
    Terminate,
    /// After the completion display delay, deliver `ClearStatus`.
    ScheduleClear { start_time: u64 },
    /// Deliver `Run` again: the script is set to run forever.
    Rerun,
    /// The event does not apply in the current status; the host may report it.
    Ignored,
}

/// Decides a script's next status and the host's action for one event.
/// `forever` says whether a cleared run starts again.
pub fn script_step(status: Status, event: ScriptEvent, forever: bool) -> (r: (Status, ScriptAction))
    ensures
        event matches ScriptEvent::Run { now } ==> if status is Running {
            r == (status, ScriptAction::Ignored)
        } else {
            r == (Status::Running { start_time: now }, ScriptAction::Spawn { start_time: now })
        },
        event matches ScriptEvent::Kill { start_time: t } ==> r.0 == status && match status {
            Status::Running { start_time } => r.1 == if start_time == t {
                ScriptAction::Terminate
            } else {
                ScriptAction::Nothing
            },
            _ => r.1 == ScriptAction::Ignored,
        },
        event matches ScriptEvent::Complete { status: code, start_time } ==> r == (
            Status::Completed { status: code, start_time },
            ScriptAction::ScheduleClear { start_time },
        ),
        event matches ScriptEvent::ClearStatus { start_time: t } ==> match status {
            Status::Completed { start_time, .. } => if start_time == t {
                r == (Status::Off, if forever {
                    ScriptAction::Rerun
                } else {
                    ScriptAction::Nothing
                })
            } else {
                r == (status, ScriptAction::Ignored)
            },
            _ => r == (status, ScriptAction::Ignored),
        },
{
    match event {
        ScriptEvent::Run { now } => match status {
            Status::Running { .. } => (status, ScriptAction::Ignored),
            _ => (Status::Running { start_time: now }, ScriptAction::Spawn { start_time: now }),
        },
        ScriptEvent::Kill { start_time: t } => match status {
            Status::Running { start_time } => if start_time == t {
                (status, ScriptAction::Terminate)
            } else {
                (status, ScriptAction::Nothing)
            },
            _ => (status, ScriptAction::Ignored),
        },
        ScriptEvent::Complete { status: code, start_time } => (
            Status::Completed { status: code, start_time },
            ScriptAction::ScheduleClear { start_time },
        ),
        ScriptEvent::ClearStatus { start_time: t } => match status {
            Status::Completed { start_time, .. } => if start_time == t {
                (Status::Off, if forever {
                    ScriptAction::Rerun
                } else {
                    ScriptAction::Nothing
                })
            } else {
                (status, ScriptAction::Ignored)
            },
            _ => (status, ScriptAction::Ignored),
        },
    }
}

/// How long an activity light stays lit, in nanoseconds.
pub const LIGHT_ON_NANOS: u64 = 100_000_000;

/// How long an activity light stays dark before it can light again.
pub const LIGHT_OFF_NANOS: u64 = 50_000_000;

/// An activity light and the time it last changed.
#[derive(Clone, Copy, Debug, PartialEq, Eq, Structural)]
pub enum LightState {
    On(u64),
    Off(u64),
}

/// What happens to an activity light.
#[derive(Clone, Copy, Debug, PartialEq, Eq, Structural)]
pub enum LightEvent {
    /// Output arrived at time `now`.
    Trigger { now: u64 },
    /// The lit period that began at `changed_at` is over, at time `now`.
    Clear { changed_at: u64, now: u64 },
}

/// Decides an activity light's next state, and whether the host must deliver
/// `Clear` after `LIGHT_ON_NANOS` (the result's second part: the time the
/// light was lit).
pub fn light_step(state: LightState, event: LightEvent) -> (r: (LightState, Option<u64>))
    ensures
        event matches LightEvent::Trigger { now } ==> match state {
            LightState::Off(t) => if now >= t + LIGHT_OFF_NANOS {
                r == (LightState::On(now), Some(now))
            } else {
                r == (state, None::<u64>)
            },
            LightState::On(_) => r == (state, None::<u64>),
        },
        event matches LightEvent::Clear { changed_at, now } ==> r.1 is None && match state {
            LightState::On(t) => r.0 == if t == changed_at {
                LightState::Off(now)
            } else {
                state
            },
            LightState::Off(_) => r.0 == state,
        },
{
    match event {
        LightEvent::Trigger { now } => match state {
            LightState::Off(t) => if now >= t && now - t >= LIGHT_OFF_NANOS {
                (LightState::On(now), Some(now))
            } else {
                (state, None)
            },
            LightState::On(_) => (state, None),
        },
        LightEvent::Clear { changed_at, now } => match state {
            LightState::On(t) => if t == changed_at {
                (LightState::Off(now), None)
            } else {
                (state, None)
            },
            LightState::Off(_) => (state, None),
        },
    }
}

} // verus!
