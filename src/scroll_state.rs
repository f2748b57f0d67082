use vstd::prelude::*;

use crate::log::LogEntry;
use crate::merge::{
    chronological, cursors_fit, dir_lt, entry_valid, fill, fill_spec, ids_distinct, ids_valid,
    lemma_fill_from_snapshot, lemma_fill_spec_same, lemma_rewind_spec, lemma_rewind_spec_same,
    same_on_active, consistent, contiguous_walk, fill_inv, lemma_fill_contiguous,
    lemma_rewind_consistent, log_lt, at, consumed, precedes_rest, unconsumed, lemma_sum_le, lemma_sum_prefix, lemma_sum_zero,
    rewind_spec, lens_of, rewind, sources_sorted, sum_of, total_lines,
    ScrollStateLog,
};

verus! {

/// Which edge of the merged feed the engine measures its cursors from.
#[derive(Clone, Copy, Debug, PartialEq, Eq, Structural)]
pub enum Anchor {
    /// Oldest entry first: cursors count entries from the start of each log.
    Start,
    /// Newest entry pinned: cursors count entries from the end of each log.
    End,
}

/// Scroll geometry as last measured, reinterpreted in top/bottom terms.
/// Distances use the same unit as the engine's line height.
#[derive(Clone, Copy, Debug, PartialEq, Eq, Structural)]
pub struct Viewport {
    pub offset_top: usize,
    pub offset_bottom: usize,
    pub height: usize,
}

/// A scroll report from the host: the offset measured from the edge the
/// scroll area is anchored to, the offset from the opposite edge, and the
/// visible height.
#[derive(Clone, Copy, Debug, PartialEq, Eq, Structural)]
pub struct ScrollReport {
    pub offset: usize,
    pub offset_reversed: usize,
    pub height: usize,
}

/// Events the engine handles.
#[derive(Clone, Copy, Debug, PartialEq, Eq, Structural)]
pub enum Message {
    OnScroll(ScrollReport),
    UpdateLogs,
    SetEnableUpdates(bool),
}

/// What the host must do, in order, after an event.
#[derive(Clone, Copy, Debug, PartialEq, Eq, Structural)]
pub enum Command {
    /// Scroll to this offset, measured from the edge the new anchor names.
    ScrollTo(usize),
    /// Hand this message back to the engine.
    Send(Message),
}

/// The virtualized viewport over the merged logs of the active sources.
pub struct ScrollState {
    /// Culled lines after the window, in lines.
    pub space_after: usize,
    /// Culled lines before the window, in lines.
    pub space_before: usize,
    pub anchor_y: Anchor,
    /// The window: references to the rendered entries, oldest first.
    pub logs: Vec<ScrollStateLog>,
    pub viewport: Option<Viewport>,
    /// Height of one line, in the unit of the viewport's distances.
    pub line_height: usize,
    /// The active sources, in order.
    pub runner_idxs: Vec<usize>,
    /// Per active source, entries accounted for on the anchor's edge.
    pub cursors: Vec<usize>,
    pub enable_updates: bool,
}

/// Whole lines needed to cover `len` units, rounded up.
pub open spec fn ceil_lines(len: int, lh: int) -> int {
    if len % lh == 0 {
        len / lh
    } else {
        len / lh + 1
    }
}

/// Lines to show: everything before the first measurement, else what fits.
pub open spec fn target_lines(vp: Option<Viewport>, lh: int, total: int) -> int {
    match vp {
        None => total,
        Some(v) => ceil_lines(v.height as int, lh),
    }
}

/// Whole lines culled on the anchor's side, from the remembered offset.
pub open spec fn skip_lines(anchor: Anchor, vp: Option<Viewport>, lh: int) -> int {
    match vp {
        None => 0,
        Some(v) => match anchor {
            Anchor::End => v.offset_bottom as int / lh,
            Anchor::Start => v.offset_top as int / lh,
        },
    }
}

/// Trims `target + skip` to `total`: first from `skip`, then from `target`.
/// Returns the trimmed `(skip, target)`.
pub open spec fn reconcile(total: int, target: int, skip: int) -> (int, int) {
    if target >= total {
        (0, total)
    } else if skip > total - target {
        (total - target, target)
    } else {
        (skip, target)
    }
}

/// Line plan of a recompute: `(skip side, window, opposite side)`, with up to
/// ten lines of margin taken from each side into the window.
pub open spec fn plan(total: int, target: int, skip: int) -> (int, int, int) {
    let (s0, v0) = reconcile(total, target, skip);
    let (s1, v1) = if s0 >= 10 {
        (s0 - 10, v0 + 10)
    } else {
        (0, v0 + s0)
    };
    let o = total - s1 - v1;
    if o >= 10 {
        (s1, v1 + 10, o - 10)
    } else {
        (s1, v1 + o, 0)
    }
}

/// The line plan of a recompute of `s` over `logs`.
pub open spec fn plan_of(s: ScrollState, logs: Seq<Vec<LogEntry>>) -> (int, int, int) {
    let total = total_lines(logs, s.runner_idxs@);
    plan(
        total,
        target_lines(s.viewport, s.line_height as int, total),
        skip_lines(s.anchor_y, s.viewport, s.line_height as int),
    )
}

/// What a recompute may assume of the engine and the logs it reads.
pub open spec fn can_recompute(s: ScrollState, logs: Seq<Vec<LogEntry>>) -> bool {
    &&& s.line_height > 0
    &&& ids_valid(logs, s.runner_idxs@)
    &&& total_lines(logs, s.runner_idxs@) <= usize::MAX
}

/// `new` is the result of recomputing `old` over `logs`: the window and the
/// padding follow the line plan, and the window is a chronological run of
/// existing entries of the active sources.
pub open spec fn recomputed(old: ScrollState, new: ScrollState, logs: Seq<Vec<LogEntry>>) -> bool {
    let p = plan_of(old, logs);
    let lens = lens_of(logs, old.runner_idxs@);
    &&& new.anchor_y == old.anchor_y
    &&& new.viewport == old.viewport
    &&& new.line_height == old.line_height
    &&& new.runner_idxs@ == old.runner_idxs@
    &&& new.enable_updates == old.enable_updates
    &&& window_from(old, new, logs)
    &&& cursors_fit(new.cursors@, lens)
    &&& (p.1 > 0 ==> sum_of(new.cursors@) == p.0)
    &&& (p.1 == 0 && cursors_fit(old.cursors@, lens) ==> new.cursors@ == old.cursors@)
}

/// The window and padding of `new` follow the line plan of `old` over `logs`,
/// and the window references existing entries of the active sources, in
/// chronological order when the sources are sorted and distinct.
pub open spec fn window_from(old: ScrollState, new: ScrollState, logs: Seq<Vec<LogEntry>>) -> bool {
    let p = plan_of(old, logs);
    let idxs = old.runner_idxs@;
    &&& new.logs.len() == p.1
    &&& (old.anchor_y == Anchor::End ==> new.space_after == p.0 && new.space_before == p.2)
    &&& (old.anchor_y == Anchor::Start ==> new.space_before == p.0 && new.space_after == p.2)
    &&& forall|k: int| 0 <= k < new.logs.len() ==> entry_valid(logs, idxs, #[trigger] new.logs@[k])
    &&& (sources_sorted(logs, idxs) && ids_distinct(idxs) ==> chronological(logs, new.logs@))
}

/// `w` is the whole merged feed of the active sources: every one of their
/// entries, in chronological order (such a sequence is unique).
pub open spec fn is_full_merge(logs: Seq<Vec<LogEntry>>, idxs: Seq<usize>, w: Seq<ScrollStateLog>) -> bool {
    &&& w.len() == total_lines(logs, idxs)
    &&& chronological(logs, w)
    &&& forall|k: int| 0 <= k < w.len() ==> entry_valid(logs, idxs, #[trigger] w[k])
}

/// Whether cursors of anchor `a` count from the start of each log.
pub open spec fn is_fwd(a: Anchor) -> bool {
    a == Anchor::Start
}

/// The cursors a recompute starts from: the stored ones, or all zero when
/// they do not fit the logs (a forced resynchronisation).
pub open spec fn start_cursors(s: ScrollState, logs: Seq<Vec<LogEntry>>) -> Seq<usize> {
    let lens = lens_of(logs, s.runner_idxs@);
    if cursors_fit(s.cursors@, lens) {
        s.cursors@
    } else {
        Seq::new(lens.len(), |i: int| 0usize)
    }
}

/// The merge walk of a recompute of `s`: rewind to the plan's skip count,
/// then fill the window, in the direction of the anchor.
pub open spec fn fill_of(s: ScrollState, logs: Seq<Vec<LogEntry>>) -> (
    Seq<ScrollStateLog>,
    Option<Seq<usize>>,
) {
    let idxs = s.runner_idxs@;
    let lens = lens_of(logs, idxs);
    let p = plan_of(s, logs);
    let fwd = is_fwd(s.anchor_y);
    let c0 = start_cursors(s, logs);
    let c1 = rewind_spec(fwd, logs, idxs, lens, c0, sum_of(c0), p.0, sum_of(c0) as nat);
    fill_spec(
        fwd,
        logs,
        idxs,
        lens,
        c1,
        sum_of(c1),
        p.0,
        p.1,
        seq![],
        None,
        (sum_of(lens) - sum_of(c1)) as nat,
    )
}

/// The window a recompute of `s` produces, oldest entry first.
pub open spec fn window_spec(s: ScrollState, logs: Seq<Vec<LogEntry>>) -> Seq<ScrollStateLog> {
    let w = fill_of(s, logs).0;
    if is_fwd(s.anchor_y) {
        w
    } else {
        w.reverse()
    }
}

/// The cursors a recompute of `s` stores: those at the window's boundary on
/// the skip side, or the starting ones when the window is empty.
pub open spec fn cursors_spec(s: ScrollState, logs: Seq<Vec<LogEntry>>) -> Seq<usize> {
    match fill_of(s, logs).1 {
        Some(x) => x,
        None => start_cursors(s, logs),
    }
}

/// `w` is an unbroken run of the merged feed: every entry of the active
/// sources that lies between its first and its last entry is in it.
pub open spec fn contiguous(logs: Seq<Vec<LogEntry>>, idxs: Seq<usize>, w: Seq<ScrollStateLog>) -> bool {
    forall|j: int, q: int|
        0 <= j < idxs.len() && 0 <= q < lens_of(logs, idxs)[j] && w.len() > 0 && log_lt(
            logs,
            w[0],
            #[trigger] at(idxs, j, q),
        ) && log_lt(logs, at(idxs, j, q), w.last()) ==> w.contains(at(idxs, j, q))
}

/// The remembered geometry for a scroll report, read in the frame of `anchor`.
pub open spec fn viewport_from(anchor: Anchor, rep: ScrollReport) -> Viewport {
    match anchor {
        Anchor::Start => Viewport {
            offset_top: rep.offset,
            offset_bottom: rep.offset_reversed,
            height: rep.height,
        },
        Anchor::End => Viewport {
            offset_top: rep.offset_reversed,
            offset_bottom: rep.offset,
            height: rep.height,
        },
    }
}

/// Whether a scroll report crosses the threshold of 2.1 lines that makes the
/// engine change anchor: far from the newest edge under `End`, close to it
/// under `Start`.
pub open spec fn flip_due(anchor: Anchor, rep: ScrollReport, lh: int) -> bool {
    match anchor {
        Anchor::End => rep.offset * 10 > 21 * lh,
        Anchor::Start => rep.offset_reversed * 10 < 21 * lh,
    }
}

/// The other anchor.
pub open spec fn opposite(anchor: Anchor) -> Anchor {
    match anchor {
        Anchor::End => Anchor::Start,
        Anchor::Start => Anchor::End,
    }
}

/// Commands after a change of anchor away from `anchor`: jump to the
/// equivalent position in the new frame (the newest edge when following
/// again), re-enable updates, then recompute.
pub open spec fn flip_commands(anchor: Anchor, rep: ScrollReport) -> Seq<Command> {
    let to = match anchor {
        Anchor::Start => 0,
        Anchor::End => rep.offset_reversed,
    };
    seq![
        Command::ScrollTo(to),
        Command::Send(Message::SetEnableUpdates(true)),
        Command::Send(Message::UpdateLogs),
    ]
}

/// Commands after the active set changed: jump to the newest edge, re-enable
/// updates, then recompute.
pub open spec fn reset_commands() -> Seq<Command> {
    seq![
        Command::ScrollTo(0),
        Command::Send(Message::SetEnableUpdates(true)),
        Command::Send(Message::UpdateLogs),
    ]
}

/// `new` is `old` after the active set became `idxs`.
pub open spec fn reset_to(old: ScrollState, new: ScrollState, idxs: Seq<usize>) -> bool {
    &&& new.runner_idxs@ == idxs
    &&& new.anchor_y == Anchor::End
    &&& new.cursors@.len() == idxs.len()
    &&& forall|i: int| 0 <= i < idxs.len() ==> new.cursors@[i] == 0
    &&& new.viewport is None
    &&& !new.enable_updates
    &&& new.line_height == old.line_height
}

/// Lengths of the active sources' logs.
fn active_lens(runner_logs: &Vec<Vec<LogEntry>>, idxs: &Vec<usize>) -> (r: (Vec<usize>, usize))
    requires
        ids_valid(runner_logs@, idxs@),
        total_lines(runner_logs@, idxs@) <= usize::MAX,
    ensures
        r.0@ == lens_of(runner_logs@, idxs@),
        r.1 == total_lines(runner_logs@, idxs@),
{
    let ghost all = lens_of(runner_logs@, idxs@);
    let mut lens: Vec<usize> = Vec::new();
    let mut total: usize = 0;
    let mut i: usize = 0;
    while i < idxs.len()
        invariant
            i <= idxs.len(),
            all == lens_of(runner_logs@, idxs@),
            ids_valid(runner_logs@, idxs@),
            sum_of(all) <= usize::MAX,
            lens@ == all.take(i as int),
            total == sum_of(all.take(i as int)),
        decreases idxs.len() - i,
    {
        proof {
            lemma_sum_prefix(all, i as int);
        }
        let l = runner_logs[idxs[i]].len();
        lens.push(l);
        total = total + l;
        i += 1;
        assert(lens@ =~= all.take(i as int));
    }
    assert(all.take(i as int) =~= all);
    (lens, total)
}

/// Whether `c` holds one cursor per active source, none past its log's end.
fn cursors_valid(c: &Vec<usize>, lens: &Vec<usize>) -> (r: bool)
    ensures
        r == cursors_fit(c@, lens@),
{
    if c.len() != lens.len() {
        return false;
    }
    let mut i: usize = 0;
    while i < c.len()
        invariant
            i <= c.len(),
            c.len() == lens.len(),
            forall|j: int| 0 <= j < i ==> c[j] <= lens[j],
        decreases c.len() - i,
    {
        if c[i] > lens[i] {
            return false;
        }
        i += 1;
    }
    true
}

/// Sum of cursors that fit their logs.
fn cursor_sum(c: &Vec<usize>, lens: &Vec<usize>) -> (r: usize)
    requires
        cursors_fit(c@, lens@),
        sum_of(lens@) <= usize::MAX,
    ensures
        r == sum_of(c@),
{
    let mut t: usize = 0;
    let mut i: usize = 0;
    proof {
        lemma_sum_le(c@, lens@);
    }
    while i < c.len()
        invariant
            i <= c.len(),
            sum_of(c@) <= usize::MAX,
            t == sum_of(c@.take(i as int)),
        decreases c.len() - i,
    {
        proof {
            lemma_sum_prefix(c@, i as int);
        }
        t = t + c[i];
        i += 1;
    }
    assert(c@.take(i as int) =~= c@);
    t
}

/// Executable form of `plan`.
pub fn plan_lines(total: usize, target: usize, skip: usize) -> (r: (usize, usize, usize))
    ensures
        (r.0 as int, r.1 as int, r.2 as int) == plan(total as int, target as int, skip as int),
{
    let (s0, v0) = if target >= total {
        (0, total)
    } else if skip > total - target {
        (total - target, target)
    } else {
        (skip, target)
    };
    let (s1, v1) = if s0 >= 10 {
        (s0 - 10, v0 + 10)
    } else {
        (0, v0 + s0)
    };
    let o = total - s1 - v1;
    if o >= 10 {
        (s1, v1 + 10, o - 10)
    } else {
        (s1, v1 + o, 0)
    }
}

/// `n` zero cursors.
fn zeros(n: usize) -> (r: Vec<usize>)
    ensures
        r@.len() == n,
        forall|i: int| 0 <= i < n ==> r@[i] == 0,
{
    let mut r: Vec<usize> = Vec::new();
    while r.len() < n
        invariant
            r@.len() <= n,
            forall|i: int| 0 <= i < r@.len() ==> r@[i] == 0,
        decreases n - r.len(),
    {
        r.push(0);
    }
    r
}

/// The window taken in reverse order.
fn reversed(w: Vec<ScrollStateLog>) -> (r: Vec<ScrollStateLog>)
    ensures
        r.len() == w.len(),
        forall|k: int| 0 <= k < w.len() ==> r@[k] == w@[w.len() - 1 - k],
{
    let mut r: Vec<ScrollStateLog> = Vec::new();
    let mut k: usize = 0;
    while k < w.len()
        invariant
            k <= w.len(),
            r.len() == k,
            forall|m: int| 0 <= m < k ==> r@[m] == w@[w.len() - 1 - m],
        decreases w.len() - k,
    {
        r.push(w[w.len() - 1 - k]);
        k += 1;
    }
    r
}

/// Turns cursors counted from one edge into cursors counted from the other:
/// each becomes its log's length minus its old value.
pub fn reinterpret_cursors(cursors: &mut Vec<usize>, lens: &Vec<usize>)
    requires
        cursors_fit(old(cursors)@, lens@),
    ensures
        final(cursors)@.len() == old(cursors)@.len(),
        forall|i: int|
            0 <= i < lens.len() ==> #[trigger] final(cursors)@[i] == lens[i] - old(cursors)@[i],
        cursors_fit(final(cursors)@, lens@),
{
    let mut i: usize = 0;
    while i < cursors.len()
        invariant
            i <= cursors.len(),
            cursors@.len() == old(cursors)@.len(),
            cursors_fit(old(cursors)@, lens@),
            forall|j: int| 0 <= j < i ==> #[trigger] cursors@[j] == lens[j] - old(cursors)@[j],
            forall|j: int| i <= j < cursors.len() ==> #[trigger] cursors@[j] == old(cursors)@[j],
        decreases cursors.len() - i,
    {
        let v = lens[i] - cursors[i];
        cursors.set(i, v);
        i += 1;
    }
}

impl ScrollState {
    /// An engine with no active sources, pinned to the newest entry.
    pub fn new(line_height: usize) -> (r: ScrollState)
        requires
            line_height > 0,
        ensures
            r.line_height == line_height,
            r.anchor_y == Anchor::End,
            r.logs@.len() == 0,
            r.viewport is None,
            r.runner_idxs@.len() == 0,
            r.cursors@.len() == 0,
            r.enable_updates,
            r.space_before == 0,
            r.space_after == 0,
    {
        ScrollState {
            space_before: 0,
            space_after: 0,
            anchor_y: Anchor::End,
            logs: Vec::new(),
            viewport: None,
            line_height,
            runner_idxs: Vec::new(),
            cursors: Vec::new(),
            enable_updates: true,
        }
    }

    /// Recomputes the window over the active sources' logs, unless updates
    /// are disabled.
    pub fn update_logs(&mut self, runner_logs: &Vec<Vec<LogEntry>>)
        requires
            can_recompute(*old(self), runner_logs@),
        ensures
            !old(self).enable_updates ==> *final(self) == *old(self),
            old(self).enable_updates ==> recomputed(*old(self), *final(self), runner_logs@),
            old(self).enable_updates ==> final(self).logs@ == window_spec(*old(self), runner_logs@)
                && final(self).cursors@ == cursors_spec(*old(self), runner_logs@),
            old(self).enable_updates ==> final(self).logs.len() + final(self).space_before
                + final(self).space_after == total_lines(runner_logs@, old(self).runner_idxs@),
            old(self).enable_updates && target_lines(
                old(self).viewport,
                old(self).line_height as int,
                total_lines(runner_logs@, old(self).runner_idxs@),
            ) >= total_lines(runner_logs@, old(self).runner_idxs@) ==> final(self).logs.len()
                == total_lines(runner_logs@, old(self).runner_idxs@) && final(self).space_before == 0
                && final(self).space_after == 0,
            old(self).enable_updates && target_lines(
                old(self).viewport,
                old(self).line_height as int,
                total_lines(runner_logs@, old(self).runner_idxs@),
            ) >= total_lines(runner_logs@, old(self).runner_idxs@) && sources_sorted(
                runner_logs@,
                old(self).runner_idxs@,
            ) && ids_distinct(old(self).runner_idxs@) ==> is_full_merge(
                runner_logs@,
                old(self).runner_idxs@,
                final(self).logs@,
            ),
            old(self).enable_updates && sources_sorted(runner_logs@, old(self).runner_idxs@)
                && ids_distinct(old(self).runner_idxs@) ==> chronological(runner_logs@, final(self).logs@),
            old(self).enable_updates && old(self).runner_idxs.len() == 0 ==> final(self).logs.len() == 0
                && final(self).space_before == 0 && final(self).space_after == 0,
            can_recompute(*final(self), runner_logs@),
    {
        if !self.enable_updates {
            return;
        }
        let (lens, total) = active_lens(runner_logs, &self.runner_idxs);
        let lh = self.line_height;
        let target: usize = match self.viewport {
            None => total,
            Some(v) => {
                let q = v.height / lh;
                if v.height % lh == 0 {
                    q
                } else {
                    assert(q < usize::MAX) by (nonlinear_arith)
                        requires
                            lh > 0,
                            v.height % lh != 0,
                            q == v.height / lh,
                            v.height <= usize::MAX,
                    ;
                    q + 1
                }
            },
        };
        let fwd = match self.anchor_y {
            Anchor::Start => true,
            Anchor::End => false,
        };
        let skip: usize = match self.viewport {
            None => 0,
            Some(v) => if fwd {
                v.offset_top / lh
            } else {
                v.offset_bottom / lh
            },
        };
        let (s, vis, o) = plan_lines(total, target, skip);
        if fwd {
            self.space_before = s;
            self.space_after = o;
        } else {
            self.space_after = s;
            self.space_before = o;
        }
        if !cursors_valid(&self.cursors, &lens) {
            self.cursors = zeros(lens.len());
            assert(self.cursors@ =~= Seq::new(lens@.len(), |i: int| 0usize));
        }
        let mut c = self.cursors.clone();
        assert(c@ =~= self.cursors@);
        let ct = cursor_sum(&c, &lens);
        let ct = rewind(runner_logs, &self.runner_idxs, &lens, &mut c, ct, s, fwd);
        let (win, snap) = fill(runner_logs, &self.runner_idxs, &lens, c, ct, s, vis, fwd);
        match snap {
            Some(sn) => {
                self.cursors = sn;
            },
            None => {},
        }
        if fwd {
            self.logs = win;
        } else {
            let ghost w = win@;
            self.logs = reversed(win);
            proof {
                let r = self.logs@;
                assert(r =~= w.reverse());
                assert forall|a: int, b: int|
                    0 <= a < b < r.len() && sources_sorted(runner_logs@, self.runner_idxs@)
                        && ids_distinct(self.runner_idxs@) implies #[trigger] crate::merge::log_lt(
                    runner_logs@,
                    r[a],
                    r[b],
                ) by {
                    assert(dir_lt(false, runner_logs@, w[w.len() - 1 - b], w[w.len() - 1 - a]));
                }
                assert forall|k: int| 0 <= k < r.len() implies entry_valid(
                    runner_logs@,
                    self.runner_idxs@,
                    #[trigger] r[k],
                ) by {
                    assert(r[k] == w[w.len() - 1 - k]);
                }
            }
        }
    }

    /// Handles one engine event; returns the commands the host must run, in
    /// order.
    pub fn update(&mut self, message: Message, runner_logs: &Vec<Vec<LogEntry>>) -> (r: Vec<Command>)
        requires
            can_recompute(*old(self), runner_logs@),
        ensures
            can_recompute(*final(self), runner_logs@),
            final(self).runner_idxs@ == old(self).runner_idxs@,
            final(self).line_height == old(self).line_height,
            message == Message::UpdateLogs ==> r@.len() == 0 && (old(self).enable_updates
                ==> recomputed(*old(self), *final(self), runner_logs@)) && (
            !old(self).enable_updates ==> *final(self) == *old(self)),
            message matches Message::SetEnableUpdates(v) ==> r@.len() == 0
                && final(self).enable_updates == v && final(self).anchor_y == old(self).anchor_y
                && final(self).cursors@ == old(self).cursors@ && final(self).viewport
                == old(self).viewport && final(self).logs@ == old(self).logs@,
            message matches Message::OnScroll(rep) ==> {
                let lh = old(self).line_height as int;
                let mid = ScrollState {
                    viewport: Some(viewport_from(old(self).anchor_y, rep)),
                    ..*old(self)
                };
                &&& !old(self).enable_updates ==> *final(self) == *old(self) && r@.len() == 0
                &&& old(self).enable_updates ==> {
                    &&& final(self).viewport == mid.viewport
                    &&& window_from(mid, *final(self), runner_logs@)
                    &&& final(self).logs@ == window_spec(mid, runner_logs@)
                    &&& final(self).cursors@.len() == cursors_spec(mid, runner_logs@).len()
                    &&& (sources_sorted(runner_logs@, old(self).runner_idxs@) && ids_distinct(
                        old(self).runner_idxs@,
                    ) ==> chronological(runner_logs@, final(self).logs@))
                    &&& cursors_fit(
                        final(self).cursors@,
                        lens_of(runner_logs@, old(self).runner_idxs@),
                    )
                    &&& flip_due(old(self).anchor_y, rep, lh) ==> {
                        &&& final(self).anchor_y == opposite(old(self).anchor_y)
                        &&& !final(self).enable_updates
                        &&& forall|i: int|
                            0 <= i < final(self).cursors@.len() ==> #[trigger] final(self).cursors@[i]
                                == lens_of(runner_logs@, old(self).runner_idxs@)[i] - cursors_spec(
                                mid,
                                runner_logs@,
                            )[i]
                        &&& r@ == flip_commands(old(self).anchor_y, rep)
                    }
                    &&& !flip_due(old(self).anchor_y, rep, lh) ==> {
                        &&& final(self).anchor_y == old(self).anchor_y
                        &&& final(self).enable_updates
                        &&& final(self).cursors@ == cursors_spec(mid, runner_logs@)
                        &&& r@.len() == 0
                    }
                }
            },
    {
        match message {
            Message::UpdateLogs => {
                self.update_logs(runner_logs);
                Vec::new()
            },
            Message::SetEnableUpdates(v) => {
                self.enable_updates = v;
                Vec::new()
            },
            Message::OnScroll(rep) => {
                if !self.enable_updates {
                    return Vec::new();
                }
                let anchor = self.anchor_y;
                self.viewport = Some(
                    match anchor {
                        Anchor::Start => Viewport {
                            offset_top: rep.offset,
                            offset_bottom: rep.offset_reversed,
                            height: rep.height,
                        },
                        Anchor::End => Viewport {
                            offset_top: rep.offset_reversed,
                            offset_bottom: rep.offset,
                            height: rep.height,
                        },
                    },
                );
                self.update_logs(runner_logs);
                let lh = self.line_height as u128;
                let due = match anchor {
                    Anchor::End => (rep.offset as u128) * 10 > lh * 21,
                    Anchor::Start => (rep.offset_reversed as u128) * 10 < lh * 21,
                };
                if !due {
                    return Vec::new();
                }
                let (lens, _total) = active_lens(runner_logs, &self.runner_idxs);
                reinterpret_cursors(&mut self.cursors, &lens);
                let to = match anchor {
                    Anchor::Start => 0,
                    Anchor::End => rep.offset_reversed,
                };
                self.anchor_y = match anchor {
                    Anchor::Start => Anchor::End,
                    Anchor::End => Anchor::Start,
                };
                self.enable_updates = false;
                let mut r: Vec<Command> = Vec::new();
                r.push(Command::ScrollTo(to));
                r.push(Command::Send(Message::SetEnableUpdates(true)));
                r.push(Command::Send(Message::UpdateLogs));
                assert(r@ =~= flip_commands(anchor, rep));
                r
            },
        }
    }

    /// Replaces the active sources. Any change of the set starts over pinned
    /// to the newest entries: anchor `End`, all cursors zero, no remembered
    /// geometry, updates held until the host has jumped to the newest edge.
    pub fn set_runner_idxs(&mut self, runner_idxs: Vec<usize>) -> (r: Vec<Command>)
        ensures
            reset_to(*old(self), *final(self), runner_idxs@),
            r@ == reset_commands(),
    {
        let n = runner_idxs.len();
        self.runner_idxs = runner_idxs;
        self.anchor_y = Anchor::End;
        self.cursors = zeros(n);
        self.viewport = None;
        self.enable_updates = false;
        let mut r: Vec<Command> = Vec::new();
        r.push(Command::ScrollTo(0));
        r.push(Command::Send(Message::SetEnableUpdates(true)));
        r.push(Command::Send(Message::UpdateLogs));
        assert(r@ =~= reset_commands());
        r
    }

    /// Reacts to new entries in the log of source `runner_idx`: recomputes
    /// when that source is active, and changes nothing otherwise.
    pub fn log_appended(&mut self, runner_idx: usize, runner_logs: &Vec<Vec<LogEntry>>)
        requires
            can_recompute(*old(self), runner_logs@),
        ensures
            !old(self).runner_idxs@.contains(runner_idx) ==> *final(self) == *old(self),
            old(self).runner_idxs@.contains(runner_idx) && old(self).enable_updates ==> recomputed(
                *old(self),
                *final(self),
                runner_logs@,
            ),
            !old(self).enable_updates ==> *final(self) == *old(self),
            can_recompute(*final(self), runner_logs@),
    {
        let mut active = false;
        let mut i: usize = 0;
        while i < self.runner_idxs.len()
            invariant
                i <= self.runner_idxs.len(),
                active <==> exists|j: int| 0 <= j < i && self.runner_idxs@[j] == runner_idx,
            decreases self.runner_idxs.len() - i,
        {
            if self.runner_idxs[i] == runner_idx {
                active = true;
            }
            i += 1;
        }
        if active {
            self.update_logs(runner_logs);
        }
    }
}

/// Reconciliation: after any recompute, the window and the culled lines on
/// both sides together account for every entry of the active sources.
pub proof fn lemma_window_accounts_for_all(
    old: ScrollState,
    new: ScrollState,
    logs: Seq<Vec<LogEntry>>,
)
    requires
        can_recompute(old, logs),
        window_from(old, new, logs),
    ensures
        new.logs.len() + new.space_before + new.space_after == total_lines(logs, old.runner_idxs@),
{
    lemma_sum_le(lens_of(logs, old.runner_idxs@), lens_of(logs, old.runner_idxs@));
    let z = Seq::<usize>::new(old.runner_idxs@.len(), |i: int| 0usize);
    lemma_sum_zero(z);
    lemma_sum_le(z, lens_of(logs, old.runner_idxs@));
}

/// Reset: once the active set has changed and the host has run the returned
/// commands (updates re-enabled, then a recompute), the engine follows the
/// newest entry: anchor `End`, all cursors zero, nothing culled, and the
/// window is the whole merged feed.
pub proof fn lemma_reset_follows_newest(
    s0: ScrollState,
    s1: ScrollState,
    s2: ScrollState,
    logs: Seq<Vec<LogEntry>>,
    idxs: Seq<usize>,
)
    requires
        reset_to(s0, s1, idxs),
        can_recompute(s1, logs),
        recomputed((ScrollState { enable_updates: true, ..s1 }), s2, logs),
    ensures
        s2.anchor_y == Anchor::End,
        s2.enable_updates,
        s2.space_before == 0,
        s2.space_after == 0,
        s2.logs.len() == total_lines(logs, idxs),
        s2.cursors@.len() == idxs.len(),
        forall|i: int| 0 <= i < idxs.len() ==> s2.cursors@[i] == 0,
        sources_sorted(logs, idxs) && ids_distinct(idxs) ==> is_full_merge(logs, idxs, s2.logs@),
{
    let lens = lens_of(logs, idxs);
    let z = Seq::<usize>::new(idxs.len(), |i: int| 0usize);
    lemma_sum_zero(z);
    lemma_sum_le(z, lens);
    assert(s1.cursors@ =~= z);
    if total_lines(logs, idxs) > 0 {
        lemma_sum_le(z, s2.cursors@);
    }
}

/// Idempotence: a second recompute over the same logs, with no scroll report
/// in between, leaves the window, the padding and the cursors as the first
/// one left them.
pub proof fn lemma_recompute_idempotent(
    s0: ScrollState,
    s1: ScrollState,
    s2: ScrollState,
    logs: Seq<Vec<LogEntry>>,
)
    requires
        can_recompute(s0, logs),
        recomputed(s0, s1, logs),
        s1.logs@ == window_spec(s0, logs),
        s1.cursors@ == cursors_spec(s0, logs),
        recomputed(s1, s2, logs),
        s2.logs@ == window_spec(s1, logs),
        s2.cursors@ == cursors_spec(s1, logs),
    ensures
        s2.logs@ == s1.logs@,
        s2.cursors@ == s1.cursors@,
        s2.space_before == s1.space_before,
        s2.space_after == s1.space_after,
        s2.anchor_y == s1.anchor_y,
        s2.viewport == s1.viewport,
{
    let idxs = s0.runner_idxs@;
    let lens = lens_of(logs, idxs);
    let p = plan_of(s0, logs);
    let fwd = is_fwd(s0.anchor_y);
    assert(s0.runner_idxs.len() == s0.runner_idxs@.len());
    assert(plan_of(s1, logs) == p);
    let z = Seq::new(lens.len(), |i: int| 0usize);
    assert(cursors_fit(z, lens));
    let c0 = start_cursors(s0, logs);
    assert(cursors_fit(c0, lens));
    if p.1 > 0 {
        lemma_sum_le(z, c0);
        lemma_sum_zero(z);
        lemma_rewind_spec(fwd, logs, idxs, lens, c0, sum_of(c0), p.0);
        let c1 = rewind_spec(fwd, logs, idxs, lens, c0, sum_of(c0), p.0, sum_of(c0) as nat);
        lemma_fill_from_snapshot(fwd, logs, idxs, lens, c1, sum_of(c1), p.0, p.1);
        let x = fill_of(s0, logs).1->0;
        assert(s1.cursors@ == x);
        assert(start_cursors(s1, logs) == x);
        assert(rewind_spec(fwd, logs, idxs, lens, x, sum_of(x), p.0, sum_of(x) as nat) == x);
        assert(fill_of(s1, logs) == fill_of(s0, logs));
    } else {
        assert(start_cursors(s1, logs) == c0);
    }
}

/// Entries of inactive sources are invisible: over two log sets that agree
/// on the active sources, a recompute plans the same padding, produces the
/// same window and stores the same cursors. In particular, appending to an
/// inactive source changes none of them.
pub proof fn lemma_inactive_sources_invisible(
    s: ScrollState,
    logs1: Seq<Vec<LogEntry>>,
    logs2: Seq<Vec<LogEntry>>,
)
    requires
        same_on_active(logs1, logs2, s.runner_idxs@),
    ensures
        plan_of(s, logs1) == plan_of(s, logs2),
        window_spec(s, logs1) == window_spec(s, logs2),
        cursors_spec(s, logs1) == cursors_spec(s, logs2),
{
    let idxs = s.runner_idxs@;
    assert(s.runner_idxs.len() == s.runner_idxs@.len());
    assert(lens_of(logs1, idxs) =~= lens_of(logs2, idxs)) by {
        assert forall|i: int| 0 <= i < idxs.len() implies lens_of(logs1, idxs)[i] == lens_of(
            logs2,
            idxs,
        )[i] by {
            assert(logs1[idxs[i] as int] == logs2[idxs[i] as int]);
        }
    }
    let lens = lens_of(logs1, idxs);
    let p = plan_of(s, logs1);
    let fwd = is_fwd(s.anchor_y);
    let c0 = start_cursors(s, logs1);
    lemma_rewind_spec_same(fwd, logs1, logs2, idxs, lens, c0, sum_of(c0), p.0, sum_of(c0) as nat);
    let c1 = rewind_spec(fwd, logs1, idxs, lens, c0, sum_of(c0), p.0, sum_of(c0) as nat);
    lemma_fill_spec_same(
        fwd,
        logs1,
        logs2,
        idxs,
        lens,
        c1,
        sum_of(c1),
        p.0,
        p.1,
        seq![],
        None,
        (sum_of(lens) - sum_of(c1)) as nat,
    );
}

/// Contiguity: when the cursors a recompute starts from cut the merged order
/// cleanly (everything they consumed comes before everything they did not),
/// or when nothing is culled on the anchor's side, the window is an unbroken
/// run of the merged feed, and a non-empty window leaves cursors that again
/// cut it cleanly, at the window's boundary.
pub proof fn lemma_window_contiguous(s0: ScrollState, s1: ScrollState, logs: Seq<Vec<LogEntry>>)
    requires
        can_recompute(s0, logs),
        recomputed(s0, s1, logs),
        s1.logs@ == window_spec(s0, logs),
        s1.cursors@ == cursors_spec(s0, logs),
        sources_sorted(logs, s0.runner_idxs@),
        ids_distinct(s0.runner_idxs@),
        consistent(
            is_fwd(s0.anchor_y),
            logs,
            s0.runner_idxs@,
            lens_of(logs, s0.runner_idxs@),
            start_cursors(s0, logs),
        ) || plan_of(s0, logs).0 == 0,
    ensures
        contiguous(logs, s0.runner_idxs@, s1.logs@),
        plan_of(s0, logs).1 > 0 ==> consistent(
            is_fwd(s0.anchor_y),
            logs,
            s0.runner_idxs@,
            lens_of(logs, s0.runner_idxs@),
            s1.cursors@,
        ),
{
    let idxs = s0.runner_idxs@;
    let lens = lens_of(logs, idxs);
    let p = plan_of(s0, logs);
    let fwd = is_fwd(s0.anchor_y);
    assert(s0.runner_idxs.len() == s0.runner_idxs@.len());
    let z = Seq::new(lens.len(), |i: int| 0usize);
    assert(cursors_fit(z, lens));
    let c0 = start_cursors(s0, logs);
    assert(cursors_fit(c0, lens));
    lemma_sum_le(z, c0);
    lemma_sum_zero(z);
    lemma_rewind_spec(fwd, logs, idxs, lens, c0, sum_of(c0), p.0);
    let c1 = rewind_spec(fwd, logs, idxs, lens, c0, sum_of(c0), p.0, sum_of(c0) as nat);
    if consistent(fwd, logs, idxs, lens, c0) {
        lemma_rewind_consistent(fwd, logs, idxs, lens, c0, sum_of(c0), p.0, sum_of(c0) as nat);
    } else {
        lemma_sum_le(z, c1);
        assert(c1 =~= z);
    }
    assert(fill_inv(fwd, logs, idxs, lens, c1, seq![]));
    lemma_fill_contiguous(
        fwd,
        logs,
        idxs,
        lens,
        c1,
        sum_of(c1),
        p.0,
        p.1,
        seq![],
        None,
        (sum_of(lens) - sum_of(c1)) as nat,
    );
    let w = fill_of(s0, logs).0;
    assert(contiguous_walk(fwd, logs, idxs, lens, w));
    if !fwd {
        let r = w.reverse();
        assert forall|j: int, q: int|
            0 <= j < idxs.len() && 0 <= q < lens[j] && r.len() > 0 && log_lt(
                logs,
                r[0],
                #[trigger] at(idxs, j, q),
            ) && log_lt(logs, at(idxs, j, q), r.last()) implies r.contains(at(idxs, j, q)) by {
            assert(r[0] == w.last());
            assert(r.last() == w[0]);
            assert(w.contains(at(idxs, j, q)));
            let k = choose|k: int| 0 <= k < w.len() && w[k] == at(idxs, j, q);
            assert(r[w.len() - 1 - k] == w[k]);
        }
    }
}

/// Flip: cursors that cut the merged order cleanly in one frame, once
/// reinterpreted (each becomes its log's length minus itself), cut it cleanly
/// in the other frame, at the same place: the entries before the cut stay
/// before it.
pub proof fn lemma_flip_keeps_cut(
    fwd: bool,
    logs: Seq<Vec<LogEntry>>,
    idxs: Seq<usize>,
    c: Seq<usize>,
    flipped: Seq<usize>,
)
    requires
        cursors_fit(c, lens_of(logs, idxs)),
        flipped.len() == c.len(),
        forall|i: int| 0 <= i < c.len() ==> #[trigger] flipped[i] == lens_of(logs, idxs)[i] - c[i],
        consistent(fwd, logs, idxs, lens_of(logs, idxs), c),
    ensures
        consistent(!fwd, logs, idxs, lens_of(logs, idxs), flipped),
        forall|j: int, q: int|
            0 <= j < idxs.len() ==> (consumed(
                !fwd,
                lens_of(logs, idxs)[j] as int,
                flipped[j] as int,
                q,
            ) <==> unconsumed(fwd, lens_of(logs, idxs)[j] as int, c[j] as int, q)),
{
    let lens = lens_of(logs, idxs);
    assert forall|j: int, q: int|
        0 <= j < idxs.len() && consumed(!fwd, lens[j] as int, flipped[j] as int, q) implies precedes_rest(
        !fwd,
        logs,
        idxs,
        lens,
        flipped,
        #[trigger] at(idxs, j, q),
    ) by {
        assert forall|j2: int, q2: int|
            0 <= j2 < idxs.len() && unconsumed(
                !fwd,
                lens[j2] as int,
                flipped[j2] as int,
                q2,
            ) implies dir_lt(!fwd, logs, at(idxs, j, q), #[trigger] at(idxs, j2, q2)) by {
            assert(consumed(fwd, lens[j2] as int, c[j2] as int, q2));
            assert(precedes_rest(fwd, logs, idxs, lens, c, at(idxs, j2, q2)));
            assert(unconsumed(fwd, lens[j] as int, c[j] as int, q));
        }
    }
}

} // verus!
