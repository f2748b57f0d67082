use battlestation::log::{LogEntry, IO};
use battlestation::merge::ScrollStateLog;
use battlestation::scroll_state::{
    plan_lines, reinterpret_cursors, Anchor, Command, Message, ScrollReport, ScrollState,
};

use rand::{rngs::StdRng, seq::IndexedRandom, SeedableRng};

const MS: u64 = 1_000_000;

fn run(state: &mut ScrollState, commands: Vec<Command>, logs: &Vec<Vec<LogEntry>>) {
    for c in commands {
        if let Command::Send(m) = c {
            let more = state.update(m, logs);
            run(state, more, logs);
        }
    }
}

fn entry(t: u64, text: &str) -> LogEntry {
    (t, IO::Stdout(text.to_string()))
}

fn interleaved(n: usize) -> Vec<Vec<LogEntry>> {
    let mut logs = vec![Vec::new(), Vec::new()];
    for i in 0..n {
        logs[i % 2].push(entry(i as u64 * MS, &format!("line {i}")));
    }
    logs
}

fn texts(state: &ScrollState, logs: &Vec<Vec<LogEntry>>) -> Vec<String> {
    state
        .logs
        .iter()
        .map(|l| match &logs[l.runner_idx][l.log_pos].1 {
            IO::Stdout(s) | IO::Stderr(s) => s.clone(),
        })
        .collect()
}

#[derive(Debug)]
enum CursorPos {
    Start,
    Middle,
    End,
}

#[test]
fn logs_are_ordered() {
    let test_anchors = [Anchor::Start, Anchor::End];
    let test_cursors = [CursorPos::Start, CursorPos::Middle, CursorPos::End];

    for anchor_y in test_anchors.iter() {
        for cursor_pos in test_cursors.iter() {
            let mut scroll_state = ScrollState::new(26);
            assert_eq!(scroll_state.logs.len(), 0);

            println!("test: {:?}", (anchor_y, cursor_pos));

            let mut rng = StdRng::seed_from_u64(99);
            let runner_idxs = [0usize, 1];
            let logs = (0..1000)
                .map(|i| {
                    (
                        *runner_idxs.choose(&mut rng).unwrap() as usize,
                        format!("msg {i}\n"),
                    )
                })
                .collect::<Vec<_>>();

            let mut runner_logs: Vec<Vec<LogEntry>> = vec![Vec::new(); runner_idxs.len()];
            for i in 0..logs.len() {
                let log = &logs[i];
                runner_logs[log.0].push((i as u64 * MS, IO::Stderr(log.1.clone())));
            }

            let commands = scroll_state.set_runner_idxs(runner_idxs.to_vec());
            assert_eq!(
                commands[1],
                Command::Send(Message::SetEnableUpdates(true))
            );
            scroll_state.update(Message::SetEnableUpdates(true), &runner_logs);

            scroll_state.anchor_y = *anchor_y;

            match cursor_pos {
                CursorPos::Start => {
                    for i in 0..scroll_state.cursors.len() {
                        scroll_state.cursors[i] = 0;
                    }
                }
                CursorPos::Middle => {
                    for i in 0..scroll_state.cursors.len() {
                        scroll_state.cursors[i] = 0;
                    }
                    for i in 0..logs.len() / 2 {
                        scroll_state.cursors[logs[i].0] += 1;
                    }
                }
                CursorPos::End => {
                    for i in 0..scroll_state.cursors.len() {
                        scroll_state.cursors[i] = runner_logs[i].len();
                    }
                }
            }

            scroll_state.update_logs(&runner_logs);

            assert_eq!(scroll_state.logs.len(), 1000);
            for i in 0..scroll_state.logs.len() {
                let target_log = &logs[i];
                assert_eq!(scroll_state.logs[i].runner_idx, target_log.0);
                assert_eq!(
                    runner_logs[scroll_state.logs[i].runner_idx][scroll_state.logs[i].log_pos].1,
                    IO::Stderr(format!("msg {i}\n"))
                );
            }
        }
    }
}

#[test]
fn reset_pins_to_newest_and_shows_everything() {
    let logs = interleaved(7);
    let mut s = ScrollState::new(10);
    s.anchor_y = Anchor::Start;
    s.cursors = vec![5, 5, 5];
    let commands = s.set_runner_idxs(vec![0, 1]);
    assert_eq!(
        commands,
        vec![
            Command::ScrollTo(0),
            Command::Send(Message::SetEnableUpdates(true)),
            Command::Send(Message::UpdateLogs),
        ]
    );
    assert_eq!(s.anchor_y, Anchor::End);
    assert_eq!(s.cursors, vec![0, 0]);
    assert!(s.viewport.is_none());
    assert!(!s.enable_updates);
    run(&mut s, commands, &logs);
    assert!(s.enable_updates);
    let expected: Vec<String> = (0..7).map(|i| format!("line {i}")).collect();
    assert_eq!(texts(&s, &logs), expected);
    assert_eq!((s.space_before, s.space_after), (0, 0));
    assert_eq!(s.cursors, vec![0, 0]);
}

#[test]
fn scroll_is_ignored_while_updates_are_disabled() {
    let logs = interleaved(4);
    let mut s = ScrollState::new(10);
    s.set_runner_idxs(vec![0, 1]);
    let r = s.update(
        Message::OnScroll(ScrollReport { offset: 500, offset_reversed: 0, height: 20 }),
        &logs,
    );
    assert!(r.is_empty());
    assert!(s.viewport.is_none());
    assert!(s.logs.is_empty());
}

#[test]
fn no_active_sources_gives_empty_window() {
    let logs = interleaved(10);
    let mut s = ScrollState::new(10);
    let r = s.update(
        Message::OnScroll(ScrollReport { offset: 0, offset_reversed: 0, height: 300 }),
        &logs,
    );
    assert!(r.is_empty());
    assert!(s.logs.is_empty());
    assert_eq!((s.space_before, s.space_after), (0, 0));
    s.update(Message::UpdateLogs, &logs);
    assert!(s.logs.is_empty());
}

#[test]
fn reconciliation_holds_for_many_geometries() {
    let logs = interleaved(57);
    for anchor in [Anchor::Start, Anchor::End] {
        for height in [0usize, 5, 10, 95, 300, 1000] {
            for offset in [0usize, 9, 10, 123, 560, 5000] {
                let mut s = ScrollState::new(10);
                let c = s_reset(&mut s);
                run(&mut s, c, &logs);
                s.anchor_y = anchor;
                s.viewport = Some(battlestation::scroll_state::Viewport {
                    offset_top: offset,
                    offset_bottom: offset,
                    height,
                });
                s.update_logs(&logs);
                assert_eq!(s.logs.len() + s.space_before + s.space_after, 57);
            }
        }
    }
}

fn s_reset(s: &mut ScrollState) -> Vec<Command> {
    s.set_runner_idxs(vec![0, 1])
}

#[test]
fn plan_takes_margins_from_both_sides() {
    assert_eq!(plan_lines(100, 10, 25), (15, 30, 55));
    assert_eq!(plan_lines(100, 10, 95), (80, 20, 0));
    assert_eq!(plan_lines(100, 150, 40), (0, 100, 0));
    assert_eq!(plan_lines(100, 10, 5), (0, 25, 75));
    assert_eq!(plan_lines(0, 3, 3), (0, 0, 0));
}

#[test]
fn window_is_the_slice_at_the_remembered_offset() {
    let logs = interleaved(100);
    let mut s = ScrollState::new(10);
    let c = s_reset(&mut s);
    run(&mut s, c, &logs);
    let r = s.update(
        Message::OnScroll(ScrollReport { offset: 5, offset_reversed: 895, height: 100 }),
        &logs,
    );
    assert!(r.is_empty());
    assert_eq!(s.anchor_y, Anchor::End);
    let expected: Vec<String> = (80..100).map(|i| format!("line {i}")).collect();
    assert_eq!(texts(&s, &logs), expected);
    assert_eq!((s.space_before, s.space_after), (80, 0));
}

#[test]
fn flip_keeps_the_visible_entries() {
    let logs = interleaved(100);
    let mut s = ScrollState::new(10);
    let c = s_reset(&mut s);
    run(&mut s, c, &logs);

    // Scroll 25 lines away from the newest entry: the engine lets go of the end.
    let r = s.update(
        Message::OnScroll(ScrollReport { offset: 250, offset_reversed: 650, height: 100 }),
        &logs,
    );
    let before = texts(&s, &logs);
    assert_eq!(before.first().unwrap(), "line 55");
    assert_eq!(before.last().unwrap(), "line 84");
    assert_eq!(
        r,
        vec![
            Command::ScrollTo(650),
            Command::Send(Message::SetEnableUpdates(true)),
            Command::Send(Message::UpdateLogs),
        ]
    );
    assert_eq!(s.anchor_y, Anchor::Start);
    assert!(!s.enable_updates);
    run(&mut s, r, &logs);
    assert_eq!(texts(&s, &logs), before);
    assert_eq!((s.space_before, s.space_after), (55, 15));

    // Scroll back to within two lines of the newest entry: follow again.
    let r = s.update(
        Message::OnScroll(ScrollReport { offset: 885, offset_reversed: 15, height: 100 }),
        &logs,
    );
    let before = texts(&s, &logs);
    assert_eq!(before.first().unwrap(), "line 78");
    assert_eq!(before.last().unwrap(), "line 99");
    assert_eq!(r[0], Command::ScrollTo(0));
    assert_eq!(s.anchor_y, Anchor::End);
    run(&mut s, r, &logs);
    let after = texts(&s, &logs);
    let lost = before.iter().filter(|t| !after.contains(t)).count();
    let gained = after.iter().filter(|t| !before.contains(t)).count();
    assert!(lost + gained <= 1);
    assert_eq!(after.last().unwrap(), "line 99");
}

#[test]
fn small_scroll_keeps_the_anchor() {
    let logs = interleaved(100);
    let mut s = ScrollState::new(10);
    let c = s_reset(&mut s);
    run(&mut s, c, &logs);
    let r = s.update(
        Message::OnScroll(ScrollReport { offset: 21, offset_reversed: 879, height: 100 }),
        &logs,
    );
    assert!(r.is_empty());
    assert_eq!(s.anchor_y, Anchor::End);
    let r = s.update(
        Message::OnScroll(ScrollReport { offset: 22, offset_reversed: 878, height: 100 }),
        &logs,
    );
    assert_eq!(r.len(), 3);
    assert_eq!(s.anchor_y, Anchor::Start);
}

#[test]
fn recompute_twice_changes_nothing() {
    let logs = interleaved(200);
    for anchor in [Anchor::Start, Anchor::End] {
        let mut s = ScrollState::new(10);
        let c = s_reset(&mut s);
    run(&mut s, c, &logs);
        s.anchor_y = anchor;
        s.viewport = Some(battlestation::scroll_state::Viewport {
            offset_top: 730,
            offset_bottom: 1070,
            height: 200,
        });
        s.cursors = vec![3, 77];
        s.update_logs(&logs);
        let window = s.logs.clone();
        let cursors = s.cursors.clone();
        s.update_logs(&logs);
        assert_eq!(s.logs, window);
        assert_eq!(s.cursors, cursors);
    }
}

#[test]
fn appending_to_an_inactive_source_changes_nothing() {
    let mut logs = interleaved(40);
    logs.push(vec![entry(5, "other")]);
    let mut s = ScrollState::new(10);
    let c = s_reset(&mut s);
    run(&mut s, c, &logs);
    s.update(
        Message::OnScroll(ScrollReport { offset: 100, offset_reversed: 200, height: 100 }),
        &logs,
    );
    let (window, cursors) = (s.logs.clone(), s.cursors.clone());
    let spaces = (s.space_before, s.space_after);
    logs[2].push(entry(41 * MS, "more"));
    s.log_appended(2, &logs);
    assert_eq!(s.logs, window);
    assert_eq!(s.cursors, cursors);
    assert_eq!((s.space_before, s.space_after), spaces);
}

#[test]
fn appending_to_an_active_source_follows_the_tail() {
    let mut logs = interleaved(4);
    let mut s = ScrollState::new(10);
    let c = s_reset(&mut s);
    run(&mut s, c, &logs);
    logs[1].push(entry(9 * MS, "late"));
    s.log_appended(1, &logs);
    assert_eq!(texts(&s, &logs).last().unwrap(), "late");
    assert_eq!(s.logs.len(), 5);
}

#[test]
fn equal_timestamps_order_by_source_id() {
    let logs = vec![
        vec![entry(1, "a1"), entry(2, "a2")],
        vec![entry(1, "b1"), entry(2, "b2")],
        vec![entry(1, "c1"), entry(2, "c2"), entry(2, "c3")],
    ];
    for anchor in [Anchor::Start, Anchor::End] {
        for cursors in [vec![0, 0, 0], vec![1, 2, 1], vec![2, 2, 3]] {
            let mut s = ScrollState::new(10);
            let c = s.set_runner_idxs(vec![0, 1, 2]);
            run(&mut s, c, &logs);
            s.anchor_y = anchor;
            s.cursors = cursors;
            s.update_logs(&logs);
            assert_eq!(
                texts(&s, &logs),
                vec!["a1", "b1", "c1", "a2", "b2", "c2", "c3"]
            );
        }
    }
}

#[test]
fn window_references_entries() {
    let logs = vec![vec![entry(3, "x")], vec![entry(1, "y")]];
    let mut s = ScrollState::new(10);
    let c = s.set_runner_idxs(vec![1, 0]);
    run(&mut s, c, &logs);
    assert_eq!(
        s.logs,
        vec![
            ScrollStateLog { runner_idx: 1, log_pos: 0 },
            ScrollStateLog { runner_idx: 0, log_pos: 0 },
        ]
    );
}

#[test]
fn cursors_past_the_end_are_resynchronised() {
    let logs = interleaved(6);
    let mut s = ScrollState::new(10);
    let c = s_reset(&mut s);
    run(&mut s, c, &logs);
    s.cursors = vec![50, 1];
    s.update_logs(&logs);
    assert_eq!(s.logs.len(), 6);
    assert!(s.cursors[0] <= 3 && s.cursors[1] <= 3);
}

#[test]
fn reinterpreting_cursors_measures_from_the_other_edge() {
    let mut c = vec![2, 3, 0];
    reinterpret_cursors(&mut c, &vec![5, 3, 4]);
    assert_eq!(c, vec![3, 0, 4]);
    reinterpret_cursors(&mut c, &vec![5, 3, 4]);
    assert_eq!(c, vec![2, 3, 0]);
}
