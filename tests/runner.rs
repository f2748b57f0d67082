use battlestation::runner::{
    light_step, script_step, LightEvent, LightState, ScriptAction, ScriptEvent, Status,
    LIGHT_OFF_NANOS,
};

#[test]
fn run_spawns_unless_running() {
    assert_eq!(
        script_step(Status::Off, ScriptEvent::Run { now: 7 }, false),
        (Status::Running { start_time: 7 }, ScriptAction::Spawn { start_time: 7 })
    );
    let done = Status::Completed { status: 1, start_time: 3 };
    assert_eq!(
        script_step(done, ScriptEvent::Run { now: 9 }, false),
        (Status::Running { start_time: 9 }, ScriptAction::Spawn { start_time: 9 })
    );
    let running = Status::Running { start_time: 4 };
    assert_eq!(
        script_step(running, ScriptEvent::Run { now: 9 }, true),
        (running, ScriptAction::Ignored)
    );
}

#[test]
fn kill_applies_only_to_the_matching_run() {
    let running = Status::Running { start_time: 4 };
    assert_eq!(
        script_step(running, ScriptEvent::Kill { start_time: 4 }, false),
        (running, ScriptAction::Terminate)
    );
    assert_eq!(
        script_step(running, ScriptEvent::Kill { start_time: 5 }, false),
        (running, ScriptAction::Nothing)
    );
    assert_eq!(
        script_step(Status::Off, ScriptEvent::Kill { start_time: 4 }, false),
        (Status::Off, ScriptAction::Ignored)
    );
}

#[test]
fn completion_is_shown_then_cleared() {
    let running = Status::Running { start_time: 4 };
    let (done, action) =
        script_step(running, ScriptEvent::Complete { status: 2, start_time: 4 }, false);
    assert_eq!(done, Status::Completed { status: 2, start_time: 4 });
    assert_eq!(action, ScriptAction::ScheduleClear { start_time: 4 });
    assert_eq!(
        script_step(done, ScriptEvent::ClearStatus { start_time: 4 }, false),
        (Status::Off, ScriptAction::Nothing)
    );
    assert_eq!(
        script_step(done, ScriptEvent::ClearStatus { start_time: 4 }, true),
        (Status::Off, ScriptAction::Rerun)
    );
    assert_eq!(
        script_step(done, ScriptEvent::ClearStatus { start_time: 8 }, true),
        (done, ScriptAction::Ignored)
    );
    assert_eq!(
        script_step(Status::Off, ScriptEvent::ClearStatus { start_time: 4 }, true),
        (Status::Off, ScriptAction::Ignored)
    );
}

#[test]
fn light_blinks_with_a_dark_gap() {
    let t0 = 1_000_000_000u64;
    let off = LightState::Off(t0);
    assert_eq!(
        light_step(off, LightEvent::Trigger { now: t0 + LIGHT_OFF_NANOS - 1 }),
        (off, None)
    );
    let now = t0 + LIGHT_OFF_NANOS;
    let (on, clear) = light_step(off, LightEvent::Trigger { now });
    assert_eq!((on, clear), (LightState::On(now), Some(now)));
    assert_eq!(light_step(on, LightEvent::Trigger { now: now + 1 }), (on, None));
    assert_eq!(
        light_step(on, LightEvent::Clear { changed_at: now - 1, now: now + 5 }),
        (on, None)
    );
    assert_eq!(
        light_step(on, LightEvent::Clear { changed_at: now, now: now + 5 }),
        (LightState::Off(now + 5), None)
    );
}

#[test]
fn light_stays_dark_when_the_clock_goes_back() {
    let off = LightState::Off(500);
    assert_eq!(light_step(off, LightEvent::Trigger { now: 100 }), (off, None));
}
