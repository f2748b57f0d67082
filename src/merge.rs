use vstd::prelude::*;

use crate::log::{entry_before, key_lt, LogEntry};

verus! {

/// A reference to one entry of the merged feed: the source it belongs to and
/// its position in that source's log.
#[derive(Clone, Copy, Debug, PartialEq, Eq, Structural)]
pub struct ScrollStateLog {
    pub runner_idx: usize,
    pub log_pos: usize,
}

/// Sum of a sequence of counts.
pub open spec fn sum_of(s: Seq<usize>) -> int
    decreases s.len(),
{
    if s.len() == 0 {
        0
    } else {
        sum_of(s.drop_last()) + s.last() as int
    }
}

/// Number of entries of each active source, in active-set order.
pub open spec fn lens_of(logs: Seq<Vec<LogEntry>>, idxs: Seq<usize>) -> Seq<usize> {
    Seq::new(idxs.len(), |i: int| logs[idxs[i] as int].len())
}

/// Total number of entries over the active sources.
pub open spec fn total_lines(logs: Seq<Vec<LogEntry>>, idxs: Seq<usize>) -> int {
    sum_of(lens_of(logs, idxs))
}

/// Every active source id names an existing log.
pub open spec fn ids_valid(logs: Seq<Vec<LogEntry>>, idxs: Seq<usize>) -> bool {
    forall|i: int| 0 <= i < idxs.len() ==> idxs[i] < logs.len()
}

/// No source is active twice.
pub open spec fn ids_distinct(idxs: Seq<usize>) -> bool {
    forall|i: int, j: int| 0 <= i < j < idxs.len() ==> idxs[i] != idxs[j]
}

/// Every active source's entries carry non-decreasing timestamps.
pub open spec fn sources_sorted(logs: Seq<Vec<LogEntry>>, idxs: Seq<usize>) -> bool {
    forall|i: int, p: int, q: int|
        0 <= i < idxs.len() && 0 <= p <= q < logs[idxs[i] as int]@.len() ==> (
        #[trigger] logs[idxs[i] as int]@[p]).0 <= (#[trigger] logs[idxs[i] as int]@[q]).0
}

/// One cursor per log, none past its log's length.
pub open spec fn cursors_fit(c: Seq<usize>, lens: Seq<usize>) -> bool {
    c.len() == lens.len() && forall|i: int| 0 <= i < c.len() ==> c[i] <= lens[i]
}

/// The entry that a window reference points at exists.
pub open spec fn entry_valid(logs: Seq<Vec<LogEntry>>, idxs: Seq<usize>, e: ScrollStateLog) -> bool {
    idxs.contains(e.runner_idx) && e.runner_idx < logs.len() && e.log_pos
        < logs[e.runner_idx as int]@.len()
}

/// The capture time of the referenced entry.
pub open spec fn time_of(logs: Seq<Vec<LogEntry>>, e: ScrollStateLog) -> u64 {
    logs[e.runner_idx as int]@[e.log_pos as int].0
}

/// `a` strictly precedes `b` in the merged chronological order.
pub open spec fn log_lt(logs: Seq<Vec<LogEntry>>, a: ScrollStateLog, b: ScrollStateLog) -> bool {
    key_lt(
        time_of(logs, a),
        a.runner_idx as int,
        a.log_pos as int,
        time_of(logs, b),
        b.runner_idx as int,
        b.log_pos as int,
    )
}

/// `a` comes before `b` when walking the merged order forward (`fwd`) or backward.
pub open spec fn dir_lt(fwd: bool, logs: Seq<Vec<LogEntry>>, a: ScrollStateLog, b: ScrollStateLog) -> bool {
    if fwd {
        log_lt(logs, a, b)
    } else {
        log_lt(logs, b, a)
    }
}

/// A window is in chronological order, without repeats.
pub open spec fn chronological(logs: Seq<Vec<LogEntry>>, w: Seq<ScrollStateLog>) -> bool {
    forall|a: int, b: int| 0 <= a < b < w.len() ==> log_lt(logs, #[trigger] w[a], #[trigger] w[b])
}

/// The reference to position `q` of active source `j`.
pub open spec fn at(idxs: Seq<usize>, j: int, q: int) -> ScrollStateLog {
    ScrollStateLog { runner_idx: idxs[j], log_pos: q as usize }
}

/// Position `q` of a source of length `len` is not yet consumed by a cursor `c`
/// counted from the start (`fwd`) or from the end.
pub open spec fn unconsumed(fwd: bool, len: int, c: int, q: int) -> bool {
    if fwd {
        c <= q < len
    } else {
        0 <= q < len - c
    }
}

/// The next position a cursor `c` consumes when walking in direction `fwd`.
pub open spec fn fill_pos(fwd: bool, len: int, c: int) -> int {
    if fwd {
        c
    } else {
        len - c - 1
    }
}

/// The last position a cursor `c` consumed when walking in direction `fwd`.
pub open spec fn rewind_pos(fwd: bool, len: int, c: int) -> int {
    if fwd {
        c - 1
    } else {
        len - c
    }
}

/// `e` comes before every entry that cursors `c` have not consumed.
pub open spec fn precedes_rest(
    fwd: bool,
    logs: Seq<Vec<LogEntry>>,
    idxs: Seq<usize>,
    lens: Seq<usize>,
    c: Seq<usize>,
    e: ScrollStateLog,
) -> bool {
    forall|j: int, q: int|
        0 <= j < idxs.len() && unconsumed(fwd, lens[j] as int, c[j] as int, q) ==> dir_lt(
            fwd,
            logs,
            e,
            #[trigger] at(idxs, j, q),
        )
}

/// The source `pick_fill` chooses among the first `n` active sources.
pub open spec fn pick_fill_spec(
    fwd: bool,
    logs: Seq<Vec<LogEntry>>,
    idxs: Seq<usize>,
    lens: Seq<usize>,
    c: Seq<usize>,
    n: int,
) -> Option<usize>
    decreases n,
{
    if n <= 0 {
        None
    } else {
        let prev = pick_fill_spec(fwd, logs, idxs, lens, c, n - 1);
        let i = n - 1;
        if c[i] < lens[i] {
            match prev {
                None => Some(i as usize),
                Some(b) => if dir_lt(
                    fwd,
                    logs,
                    at(idxs, i, fill_pos(fwd, lens[i] as int, c[i] as int)),
                    at(idxs, b as int, fill_pos(fwd, lens[b as int] as int, c[b as int] as int)),
                ) {
                    Some(i as usize)
                } else {
                    prev
                },
            }
        } else {
            prev
        }
    }
}

/// The source `pick_rewind` chooses among the first `n` active sources.
pub open spec fn pick_rewind_spec(
    fwd: bool,
    logs: Seq<Vec<LogEntry>>,
    idxs: Seq<usize>,
    lens: Seq<usize>,
    c: Seq<usize>,
    n: int,
) -> Option<usize>
    decreases n,
{
    if n <= 0 {
        None
    } else {
        let prev = pick_rewind_spec(fwd, logs, idxs, lens, c, n - 1);
        let i = n - 1;
        if c[i] > 0 {
            match prev {
                None => Some(i as usize),
                Some(b) => if dir_lt(
                    fwd,
                    logs,
                    at(idxs, b as int, rewind_pos(fwd, lens[b as int] as int, c[b as int] as int)),
                    at(idxs, i, rewind_pos(fwd, lens[i] as int, c[i] as int)),
                ) {
                    Some(i as usize)
                } else {
                    prev
                },
            }
        } else {
            prev
        }
    }
}

/// The cursors `rewind` leaves, from cursors `c` that have consumed `ct`.
pub open spec fn rewind_spec(
    fwd: bool,
    logs: Seq<Vec<LogEntry>>,
    idxs: Seq<usize>,
    lens: Seq<usize>,
    c: Seq<usize>,
    ct: int,
    skip: int,
    fuel: nat,
) -> Seq<usize>
    decreases fuel,
{
    if fuel == 0 || ct <= skip {
        c
    } else {
        match pick_rewind_spec(fwd, logs, idxs, lens, c, idxs.len() as int) {
            None => c,
            Some(i) => rewind_spec(
                fwd,
                logs,
                idxs,
                lens,
                c.update(i as int, (c[i as int] - 1) as usize),
                ct - 1,
                skip,
                (fuel - 1) as nat,
            ),
        }
    }
}

/// The entries and snapshot `fill` returns, continuing from cursors `c` that
/// have consumed `ct`, with `win` collected and `snap` taken so far.
pub open spec fn fill_spec(
    fwd: bool,
    logs: Seq<Vec<LogEntry>>,
    idxs: Seq<usize>,
    lens: Seq<usize>,
    c: Seq<usize>,
    ct: int,
    skip: int,
    need: int,
    win: Seq<ScrollStateLog>,
    snap: Option<Seq<usize>>,
    fuel: nat,
) -> (Seq<ScrollStateLog>, Option<Seq<usize>>)
    decreases fuel,
{
    if fuel == 0 || win.len() >= need {
        (win, snap)
    } else {
        match pick_fill_spec(fwd, logs, idxs, lens, c, idxs.len() as int) {
            None => (win, snap),
            Some(i) => fill_spec(
                fwd,
                logs,
                idxs,
                lens,
                c.update(i as int, (c[i as int] + 1) as usize),
                ct + 1,
                skip,
                need,
                if ct >= skip {
                    win.push(at(idxs, i as int, fill_pos(fwd, lens[i as int] as int, c[i as int] as int)))
                } else {
                    win
                },
                if ct == skip {
                    Some(c)
                } else {
                    snap
                },
                (fuel - 1) as nat,
            ),
        }
    }
}

/// The view of an optional cursor snapshot.
pub open spec fn snap_view(o: Option<Vec<usize>>) -> Option<Seq<usize>> {
    match o {
        Some(v) => Some(v@),
        None => None,
    }
}

/// Changing one count changes the sum by the difference.
pub proof fn lemma_sum_update(s: Seq<usize>, i: int, v: usize)
    requires
        0 <= i < s.len(),
    ensures
        sum_of(s.update(i, v)) == sum_of(s) - s[i] + v,
    decreases s.len(),
{
    if i == s.len() - 1 {
        assert(s.update(i, v).drop_last() =~= s.drop_last());
    } else {
        assert(s.update(i, v).drop_last() =~= s.drop_last().update(i, v));
        lemma_sum_update(s.drop_last(), i, v);
    }
}

/// Pointwise bounded counts have a bounded sum, equal only when all are equal.
pub proof fn lemma_sum_le(s: Seq<usize>, t: Seq<usize>)
    requires
        cursors_fit(s, t),
    ensures
        sum_of(s) <= sum_of(t),
        sum_of(s) == sum_of(t) ==> s =~= t,
    decreases s.len(),
{
    if s.len() > 0 {
        lemma_sum_le(s.drop_last(), t.drop_last());
        if sum_of(s) == sum_of(t) {
            assert(s.drop_last() =~= t.drop_last());
            assert(s =~= s.drop_last().push(s.last()));
            assert(t =~= t.drop_last().push(t.last()));
        }
    }
}

/// All-zero counts sum to zero.
pub proof fn lemma_sum_zero(s: Seq<usize>)
    requires
        forall|i: int| 0 <= i < s.len() ==> s[i] == 0,
    ensures
        sum_of(s) == 0,
    decreases s.len(),
{
    if s.len() > 0 {
        lemma_sum_zero(s.drop_last());
    }
}

/// Growing a prefix by one adds that count, and a prefix never exceeds the whole.
pub proof fn lemma_sum_prefix(s: Seq<usize>, k: int)
    requires
        0 <= k < s.len(),
    ensures
        sum_of(s.take(k + 1)) == sum_of(s.take(k)) + s[k],
        sum_of(s.take(k + 1)) <= sum_of(s),
    decreases s.len() - k,
{
    assert(s.take(k + 1).drop_last() =~= s.take(k));
    if k + 1 < s.len() {
        lemma_sum_prefix(s, k + 1);
    } else {
        assert(s.take(k + 1) =~= s);
    }
}

/// `pick_fill_spec` finds nothing exactly when every cursor is at its end.
pub proof fn lemma_pick_fill_spec(
    fwd: bool,
    logs: Seq<Vec<LogEntry>>,
    idxs: Seq<usize>,
    lens: Seq<usize>,
    c: Seq<usize>,
    n: int,
)
    requires
        0 <= n <= idxs.len() <= usize::MAX,
        lens.len() == idxs.len(),
        cursors_fit(c, lens),
    ensures
        pick_fill_spec(fwd, logs, idxs, lens, c, n) is None <==> forall|j: int|
            0 <= j < n ==> c[j] == lens[j],
        pick_fill_spec(fwd, logs, idxs, lens, c, n) matches Some(i) ==> i < n && c[i as int]
            < lens[i as int],
    decreases n,
{
    if n > 0 {
        lemma_pick_fill_spec(fwd, logs, idxs, lens, c, n - 1);
    }
}

/// `pick_rewind_spec` finds nothing exactly when every cursor is at zero.
pub proof fn lemma_pick_rewind_spec(
    fwd: bool,
    logs: Seq<Vec<LogEntry>>,
    idxs: Seq<usize>,
    lens: Seq<usize>,
    c: Seq<usize>,
    n: int,
)
    requires
        0 <= n <= idxs.len() <= usize::MAX,
        lens.len() == idxs.len(),
        cursors_fit(c, lens),
    ensures
        pick_rewind_spec(fwd, logs, idxs, lens, c, n) is None <==> forall|j: int|
            0 <= j < n ==> c[j] == 0,
        pick_rewind_spec(fwd, logs, idxs, lens, c, n) matches Some(i) ==> i < n && c[i as int] > 0,
    decreases n,
{
    if n > 0 {
        lemma_pick_rewind_spec(fwd, logs, idxs, lens, c, n - 1);
    }
}

/// Rewinding keeps cursors within their logs and stops at the skip count.
pub proof fn lemma_rewind_spec(
    fwd: bool,
    logs: Seq<Vec<LogEntry>>,
    idxs: Seq<usize>,
    lens: Seq<usize>,
    c: Seq<usize>,
    ct: int,
    skip: int,
)
    requires
        lens.len() == idxs.len() <= usize::MAX,
        cursors_fit(c, lens),
        ct == sum_of(c),
        skip >= 0,
    ensures
        cursors_fit(rewind_spec(fwd, logs, idxs, lens, c, ct, skip, ct as nat), lens),
        sum_of(rewind_spec(fwd, logs, idxs, lens, c, ct, skip, ct as nat)) == if ct <= skip {
            ct
        } else {
            skip
        },
    decreases ct,
{
    lemma_sum_le(Seq::new(c.len(), |i: int| 0usize), c);
    if ct > skip {
        lemma_pick_rewind_spec(fwd, logs, idxs, lens, c, idxs.len() as int);
        match pick_rewind_spec(fwd, logs, idxs, lens, c, idxs.len() as int) {
            None => {
                lemma_sum_zero(c);
            },
            Some(i) => {
                let c2 = c.update(i as int, (c[i as int] - 1) as usize);
                lemma_sum_update(c, i as int, (c[i as int] - 1) as usize);
                assert((ct - 1) as nat == (ct as nat - 1) as nat);
                lemma_rewind_spec(fwd, logs, idxs, lens, c2, ct - 1, skip);
            },
        }
    }
}

/// Once past the skip count, the fill keeps the snapshot it has.
pub proof fn lemma_fill_keeps_snapshot(
    fwd: bool,
    logs: Seq<Vec<LogEntry>>,
    idxs: Seq<usize>,
    lens: Seq<usize>,
    c: Seq<usize>,
    ct: int,
    skip: int,
    need: int,
    win: Seq<ScrollStateLog>,
    snap: Option<Seq<usize>>,
    fuel: nat,
)
    requires
        ct > skip,
    ensures
        fill_spec(fwd, logs, idxs, lens, c, ct, skip, need, win, snap, fuel).1 == snap,
    decreases fuel,
{
    if fuel > 0 && win.len() < need {
        match pick_fill_spec(fwd, logs, idxs, lens, c, idxs.len() as int) {
            None => {},
            Some(i) => {
                let p = fill_pos(fwd, lens[i as int] as int, c[i as int] as int);
                lemma_fill_keeps_snapshot(
                    fwd,
                    logs,
                    idxs,
                    lens,
                    c.update(i as int, (c[i as int] + 1) as usize),
                    ct + 1,
                    skip,
                    need,
                    win.push(at(idxs, i as int, p)),
                    snap,
                    (fuel - 1) as nat,
                );
            },
        }
    }
}

/// A fill that starts short of the skip count produces exactly what a fill
/// from its own snapshot produces.
pub proof fn lemma_fill_from_snapshot(
    fwd: bool,
    logs: Seq<Vec<LogEntry>>,
    idxs: Seq<usize>,
    lens: Seq<usize>,
    c: Seq<usize>,
    ct: int,
    skip: int,
    need: int,
)
    requires
        lens.len() == idxs.len() <= usize::MAX,
        cursors_fit(c, lens),
        ct == sum_of(c),
        ct <= skip,
        need > 0,
        skip + need <= sum_of(lens),
    ensures
        ({
            let r = fill_spec(
                fwd,
                logs,
                idxs,
                lens,
                c,
                ct,
                skip,
                need,
                seq![],
                None,
                (sum_of(lens) - ct) as nat,
            );
            &&& r.1 is Some
            &&& cursors_fit(r.1->0, lens)
            &&& sum_of(r.1->0) == skip
            &&& r == fill_spec(
                fwd,
                logs,
                idxs,
                lens,
                r.1->0,
                skip,
                skip,
                need,
                seq![],
                None,
                (sum_of(lens) - skip) as nat,
            )
        }),
    decreases skip - ct,
{
    let t = sum_of(lens);
    lemma_sum_le(c, lens);
    lemma_pick_fill_spec(fwd, logs, idxs, lens, c, idxs.len() as int);
    if c =~= lens {
    }
    match pick_fill_spec(fwd, logs, idxs, lens, c, idxs.len() as int) {
        None => {
            assert(c =~= lens);
        },
        Some(i) => {
            let p = fill_pos(fwd, lens[i as int] as int, c[i as int] as int);
            let c2 = c.update(i as int, (c[i as int] + 1) as usize);
            lemma_sum_update(c, i as int, (c[i as int] + 1) as usize);
            assert(((t - ct) as nat - 1) as nat == (t - (ct + 1)) as nat);
            if ct == skip {
                lemma_fill_keeps_snapshot(
                    fwd,
                    logs,
                    idxs,
                    lens,
                    c2,
                    ct + 1,
                    skip,
                    need,
                    seq![].push(at(idxs, i as int, p)),
                    Some(c),
                    (t - (ct + 1)) as nat,
                );
            } else {
                lemma_fill_from_snapshot(fwd, logs, idxs, lens, c2, ct + 1, skip, need);
            }
        },
    }
}

/// Two log sets that agree on the active sources.
pub open spec fn same_on_active(
    logs1: Seq<Vec<LogEntry>>,
    logs2: Seq<Vec<LogEntry>>,
    idxs: Seq<usize>,
) -> bool {
    &&& ids_valid(logs1, idxs)
    &&& ids_valid(logs2, idxs)
    &&& forall|i: int| 0 <= i < idxs.len() ==> #[trigger] logs1[idxs[i] as int] == logs2[idxs[i] as int]
}

/// Entries of an active source read the same in both log sets.
proof fn lemma_active_entry_same(
    logs1: Seq<Vec<LogEntry>>,
    logs2: Seq<Vec<LogEntry>>,
    idxs: Seq<usize>,
    i: int,
    q: int,
)
    requires
        same_on_active(logs1, logs2, idxs),
        0 <= i < idxs.len(),
    ensures
        time_of(logs1, at(idxs, i, q)) == time_of(logs2, at(idxs, i, q)),
{
    assert(logs1[idxs[i] as int] == logs2[idxs[i] as int]);
}

/// Both picks read only active sources.
proof fn lemma_pick_specs_same(
    fwd: bool,
    logs1: Seq<Vec<LogEntry>>,
    logs2: Seq<Vec<LogEntry>>,
    idxs: Seq<usize>,
    lens: Seq<usize>,
    c: Seq<usize>,
    n: int,
)
    requires
        same_on_active(logs1, logs2, idxs),
        0 <= n <= idxs.len() <= usize::MAX,
    ensures
        pick_fill_spec(fwd, logs1, idxs, lens, c, n) == pick_fill_spec(fwd, logs2, idxs, lens, c, n),
        pick_rewind_spec(fwd, logs1, idxs, lens, c, n) == pick_rewind_spec(
            fwd,
            logs2,
            idxs,
            lens,
            c,
            n,
        ),
        pick_fill_spec(fwd, logs1, idxs, lens, c, n) matches Some(b) ==> b < n,
        pick_rewind_spec(fwd, logs1, idxs, lens, c, n) matches Some(b) ==> b < n,
    decreases n,
{
    if n > 0 {
        lemma_pick_specs_same(fwd, logs1, logs2, idxs, lens, c, n - 1);
        let i = n - 1;
        lemma_active_entry_same(logs1, logs2, idxs, i, fill_pos(fwd, lens[i] as int, c[i] as int));
        lemma_active_entry_same(logs1, logs2, idxs, i, rewind_pos(fwd, lens[i] as int, c[i] as int));
        match pick_fill_spec(fwd, logs1, idxs, lens, c, n - 1) {
            Some(b) => {
                lemma_active_entry_same(
                    logs1,
                    logs2,
                    idxs,
                    b as int,
                    fill_pos(fwd, lens[b as int] as int, c[b as int] as int),
                );
            },
            None => {},
        }
        match pick_rewind_spec(fwd, logs1, idxs, lens, c, n - 1) {
            Some(b) => {
                lemma_active_entry_same(
                    logs1,
                    logs2,
                    idxs,
                    b as int,
                    rewind_pos(fwd, lens[b as int] as int, c[b as int] as int),
                );
            },
            None => {},
        }
    }
}

/// Rewinding reads only active sources.
pub proof fn lemma_rewind_spec_same(
    fwd: bool,
    logs1: Seq<Vec<LogEntry>>,
    logs2: Seq<Vec<LogEntry>>,
    idxs: Seq<usize>,
    lens: Seq<usize>,
    c: Seq<usize>,
    ct: int,
    skip: int,
    fuel: nat,
)
    requires
        same_on_active(logs1, logs2, idxs),
        idxs.len() <= usize::MAX,
    ensures
        rewind_spec(fwd, logs1, idxs, lens, c, ct, skip, fuel) == rewind_spec(
            fwd,
            logs2,
            idxs,
            lens,
            c,
            ct,
            skip,
            fuel,
        ),
    decreases fuel,
{
    lemma_pick_specs_same(fwd, logs1, logs2, idxs, lens, c, idxs.len() as int);
    if fuel > 0 && ct > skip {
        match pick_rewind_spec(fwd, logs1, idxs, lens, c, idxs.len() as int) {
            None => {},
            Some(i) => {
                lemma_rewind_spec_same(
                    fwd,
                    logs1,
                    logs2,
                    idxs,
                    lens,
                    c.update(i as int, (c[i as int] - 1) as usize),
                    ct - 1,
                    skip,
                    (fuel - 1) as nat,
                );
            },
        }
    }
}

/// Filling reads only active sources.
pub proof fn lemma_fill_spec_same(
    fwd: bool,
    logs1: Seq<Vec<LogEntry>>,
    logs2: Seq<Vec<LogEntry>>,
    idxs: Seq<usize>,
    lens: Seq<usize>,
    c: Seq<usize>,
    ct: int,
    skip: int,
    need: int,
    win: Seq<ScrollStateLog>,
    snap: Option<Seq<usize>>,
    fuel: nat,
)
    requires
        same_on_active(logs1, logs2, idxs),
        idxs.len() <= usize::MAX,
    ensures
        fill_spec(fwd, logs1, idxs, lens, c, ct, skip, need, win, snap, fuel) == fill_spec(
            fwd,
            logs2,
            idxs,
            lens,
            c,
            ct,
            skip,
            need,
            win,
            snap,
            fuel,
        ),
    decreases fuel,
{
    lemma_pick_specs_same(fwd, logs1, logs2, idxs, lens, c, idxs.len() as int);
    if fuel > 0 && win.len() < need {
        match pick_fill_spec(fwd, logs1, idxs, lens, c, idxs.len() as int) {
            None => {},
            Some(i) => {
                let p = fill_pos(fwd, lens[i as int] as int, c[i as int] as int);
                lemma_fill_spec_same(
                    fwd,
                    logs1,
                    logs2,
                    idxs,
                    lens,
                    c.update(i as int, (c[i as int] + 1) as usize),
                    ct + 1,
                    skip,
                    need,
                    if ct >= skip {
                        win.push(at(idxs, i as int, p))
                    } else {
                        win
                    },
                    if ct == skip {
                        Some(c)
                    } else {
                        snap
                    },
                    (fuel - 1) as nat,
                );
            },
        }
    }
}

/// Within one sorted source, a position comes no later in the merged order
/// than any position after it.
proof fn lemma_source_order(
    fwd: bool,
    logs: Seq<Vec<LogEntry>>,
    idxs: Seq<usize>,
    j: int,
    p: int,
    q: int,
)
    requires
        sources_sorted(logs, idxs),
        ids_valid(logs, idxs),
        0 <= j < idxs.len(),
        0 <= p < logs[idxs[j] as int]@.len(),
        0 <= q < logs[idxs[j] as int]@.len(),
        p != q,
        fwd ==> p < q,
        !fwd ==> q < p,
    ensures
        dir_lt(fwd, logs, at(idxs, j, p), at(idxs, j, q)),
{
    assert(logs[idxs[j] as int].len() == logs[idxs[j] as int]@.len());
    let lo = if p < q { p } else { q };
    let hi = if p < q { q } else { p };
    assert(logs[idxs[j] as int]@[lo].0 <= logs[idxs[j] as int]@[hi].0);
}

/// Position `q` of a source of length `len` is consumed by a cursor `c`
/// counted from the start (`fwd`) or from the end.
pub open spec fn consumed(fwd: bool, len: int, c: int, q: int) -> bool {
    if fwd {
        0 <= q < c
    } else {
        len - c <= q < len
    }
}

/// Cursors `c` cut the merged order in two: everything they consumed comes
/// before everything they did not.
pub open spec fn consistent(
    fwd: bool,
    logs: Seq<Vec<LogEntry>>,
    idxs: Seq<usize>,
    lens: Seq<usize>,
    c: Seq<usize>,
) -> bool {
    forall|j: int, q: int|
        0 <= j < idxs.len() && consumed(fwd, lens[j] as int, c[j] as int, q) ==> precedes_rest(
            fwd,
            logs,
            idxs,
            lens,
            c,
            #[trigger] at(idxs, j, q),
        )
}

/// What a fill keeps true: each consumed entry is in the window, or comes
/// before everything unconsumed and before every window entry; and every
/// window entry comes before everything unconsumed.
pub open spec fn fill_inv(
    fwd: bool,
    logs: Seq<Vec<LogEntry>>,
    idxs: Seq<usize>,
    lens: Seq<usize>,
    c: Seq<usize>,
    win: Seq<ScrollStateLog>,
) -> bool {
    &&& forall|j: int, q: int|
        0 <= j < idxs.len() && consumed(fwd, lens[j] as int, c[j] as int, q) ==> win.contains(
            #[trigger] at(idxs, j, q),
        ) || (precedes_rest(fwd, logs, idxs, lens, c, at(idxs, j, q)) && forall|k: int|
            0 <= k < win.len() ==> dir_lt(fwd, logs, at(idxs, j, q), win[k]))
    &&& forall|k: int| 0 <= k < win.len() ==> precedes_rest(fwd, logs, idxs, lens, c, #[trigger] win[k])
}

/// Every entry of the active sources that lies, in direction `fwd`, between
/// the first and the last entry of `w` is in `w`.
pub open spec fn contiguous_walk(
    fwd: bool,
    logs: Seq<Vec<LogEntry>>,
    idxs: Seq<usize>,
    lens: Seq<usize>,
    w: Seq<ScrollStateLog>,
) -> bool {
    forall|j: int, q: int|
        0 <= j < idxs.len() && 0 <= q < lens[j] && w.len() > 0 && dir_lt(
            fwd,
            logs,
            w[0],
            #[trigger] at(idxs, j, q),
        ) && dir_lt(fwd, logs, at(idxs, j, q), w.last()) ==> w.contains(at(idxs, j, q))
}

/// The pick of `pick_fill_spec` comes first among the candidates.
pub proof fn lemma_pick_fill_best(
    fwd: bool,
    logs: Seq<Vec<LogEntry>>,
    idxs: Seq<usize>,
    lens: Seq<usize>,
    c: Seq<usize>,
    n: int,
)
    requires
        0 <= n <= idxs.len() <= usize::MAX,
        lens.len() == idxs.len(),
        cursors_fit(c, lens),
    ensures
        pick_fill_spec(fwd, logs, idxs, lens, c, n) matches Some(i) ==> forall|j: int|
            0 <= j < n && c[j] < lens[j] ==> !dir_lt(
                fwd,
                logs,
                #[trigger] at(idxs, j, fill_pos(fwd, lens[j] as int, c[j] as int)),
                at(idxs, i as int, fill_pos(fwd, lens[i as int] as int, c[i as int] as int)),
            ),
    decreases n,
{
    if n > 0 {
        lemma_pick_fill_best(fwd, logs, idxs, lens, c, n - 1);
        lemma_pick_fill_spec(fwd, logs, idxs, lens, c, n - 1);
    }
}

/// The pick of `pick_rewind_spec` was consumed last among the candidates.
pub proof fn lemma_pick_rewind_best(
    fwd: bool,
    logs: Seq<Vec<LogEntry>>,
    idxs: Seq<usize>,
    lens: Seq<usize>,
    c: Seq<usize>,
    n: int,
)
    requires
        0 <= n <= idxs.len() <= usize::MAX,
        lens.len() == idxs.len(),
        cursors_fit(c, lens),
    ensures
        pick_rewind_spec(fwd, logs, idxs, lens, c, n) matches Some(i) ==> forall|j: int|
            0 <= j < n && c[j] > 0 ==> !dir_lt(
                fwd,
                logs,
                at(idxs, i as int, rewind_pos(fwd, lens[i as int] as int, c[i as int] as int)),
                #[trigger] at(idxs, j, rewind_pos(fwd, lens[j] as int, c[j] as int)),
            ),
    decreases n,
{
    if n > 0 {
        lemma_pick_rewind_best(fwd, logs, idxs, lens, c, n - 1);
        lemma_pick_rewind_spec(fwd, logs, idxs, lens, c, n - 1);
    }
}

/// Finds the active source whose next entry comes first in direction `fwd`,
/// or `None` when every source is exhausted.
pub fn pick_fill(
    logs: &Vec<Vec<LogEntry>>,
    idxs: &Vec<usize>,
    lens: &Vec<usize>,
    c: &Vec<usize>,
    fwd: bool,
) -> (r: Option<usize>)
    requires
        ids_valid(logs@, idxs@),
        lens@ == lens_of(logs@, idxs@),
        cursors_fit(c@, lens@),
    ensures
        r is None <==> c@ == lens@,
        r matches Some(i) ==> {
            &&& i < idxs.len()
            &&& c[i as int] < lens[i as int]
            &&& forall|j: int|
                0 <= j < idxs.len() && c[j] < lens[j] ==> !dir_lt(
                    fwd,
                    logs@,
                    #[trigger] at(idxs@, j, fill_pos(fwd, lens[j] as int, c[j] as int)),
                    at(idxs@, i as int, fill_pos(fwd, lens[i as int] as int, c[i as int] as int)),
                )
        },
        r == pick_fill_spec(fwd, logs@, idxs@, lens@, c@, idxs.len() as int),
{
    let mut best: Option<usize> = None;
    let mut best_t: u64 = 0;
    let mut best_p: usize = 0;
    let mut i: usize = 0;
    while i < idxs.len()
        invariant
            i <= idxs.len(),
            ids_valid(logs@, idxs@),
            lens@ == lens_of(logs@, idxs@),
            cursors_fit(c@, lens@),
            best is None <==> forall|j: int| 0 <= j < i ==> c[j] == lens[j],
            best == pick_fill_spec(fwd, logs@, idxs@, lens@, c@, i as int),
            best matches Some(b) ==> {
                &&& b < i
                &&& c[b as int] < lens[b as int]
                &&& best_p == fill_pos(fwd, lens[b as int] as int, c[b as int] as int)
                &&& best_t == logs@[idxs[b as int] as int]@[best_p as int].0
                &&& forall|j: int|
                    0 <= j < i && c[j] < lens[j] ==> !dir_lt(
                        fwd,
                        logs@,
                        #[trigger] at(idxs@, j, fill_pos(fwd, lens[j] as int, c[j] as int)),
                        at(idxs@, b as int, best_p as int),
                    )
            },
        decreases idxs.len() - i,
    {
        if c[i] < lens[i] {
            let p: usize = if fwd { c[i] } else { lens[i] - c[i] - 1 };
            let src = idxs[i];
            let t = logs[src][p].0;
            let better = match best {
                None => true,
                Some(b) => if fwd {
                    entry_before(t, src, p, best_t, idxs[b], best_p)
                } else {
                    entry_before(best_t, idxs[b], best_p, t, src, p)
                },
            };
            if better {
                best = Some(i);
                best_t = t;
                best_p = p;
            }
        }
        i += 1;
    }
    proof {
        if best is None {
            assert(c@ =~= lens@);
        }
    }
    best
}

/// Finds an active source whose cursor can step back: the one whose last
/// consumed entry comes latest in direction `fwd`, or `None` when all
/// cursors are at their edge.
pub fn pick_rewind(
    logs: &Vec<Vec<LogEntry>>,
    idxs: &Vec<usize>,
    lens: &Vec<usize>,
    c: &Vec<usize>,
    fwd: bool,
) -> (r: Option<usize>)
    requires
        ids_valid(logs@, idxs@),
        lens@ == lens_of(logs@, idxs@),
        cursors_fit(c@, lens@),
    ensures
        r is None <==> forall|j: int| 0 <= j < c.len() ==> c[j] == 0,
        r matches Some(i) ==> i < idxs.len() && c[i as int] > 0,
        r == pick_rewind_spec(fwd, logs@, idxs@, lens@, c@, idxs.len() as int),
{
    let mut best: Option<usize> = None;
    let mut best_t: u64 = 0;
    let mut best_p: usize = 0;
    let mut i: usize = 0;
    while i < idxs.len()
        invariant
            i <= idxs.len(),
            ids_valid(logs@, idxs@),
            lens@ == lens_of(logs@, idxs@),
            cursors_fit(c@, lens@),
            best is None <==> forall|j: int| 0 <= j < i ==> c[j] == 0,
            best matches Some(b) ==> {
                &&& b < i
                &&& c[b as int] > 0
                &&& best_p == rewind_pos(fwd, lens[b as int] as int, c[b as int] as int)
                &&& best_t == logs@[idxs[b as int] as int]@[best_p as int].0
            },
            best == pick_rewind_spec(fwd, logs@, idxs@, lens@, c@, i as int),
        decreases idxs.len() - i,
    {
        if c[i] > 0 {
            let p: usize = if fwd { c[i] - 1 } else { lens[i] - c[i] };
            let src = idxs[i];
            let t = logs[src][p].0;
            let later = match best {
                None => true,
                Some(b) => if fwd {
                    entry_before(best_t, idxs[b], best_p, t, src, p)
                } else {
                    entry_before(t, src, p, best_t, idxs[b], best_p)
                },
            };
            if later {
                best = Some(i);
                best_t = t;
                best_p = p;
            }
        }
        i += 1;
    }
    best
}

/// Taking the entry that `pick_fill` chose leaves it before everything still
/// unconsumed.
proof fn lemma_pick_precedes(
    fwd: bool,
    logs: Seq<Vec<LogEntry>>,
    idxs: Seq<usize>,
    lens: Seq<usize>,
    c: Seq<usize>,
    i: int,
)
    requires
        sources_sorted(logs, idxs),
        ids_distinct(idxs),
        ids_valid(logs, idxs),
        lens == lens_of(logs, idxs),
        cursors_fit(c, lens),
        0 <= i < idxs.len(),
        c[i] < lens[i],
        forall|j: int|
            0 <= j < idxs.len() && c[j] < lens[j] ==> !dir_lt(
                fwd,
                logs,
                #[trigger] at(idxs, j, fill_pos(fwd, lens[j] as int, c[j] as int)),
                at(idxs, i, fill_pos(fwd, lens[i] as int, c[i] as int)),
            ),
    ensures
        precedes_rest(
            fwd,
            logs,
            idxs,
            lens,
            c.update(i, (c[i] + 1) as usize),
            at(idxs, i, fill_pos(fwd, lens[i] as int, c[i] as int)),
        ),
{
    let c2 = c.update(i, (c[i] + 1) as usize);
    let p = fill_pos(fwd, lens[i] as int, c[i] as int);
    let m = at(idxs, i, p);
    assert(logs[idxs[i] as int].len() == logs[idxs[i] as int]@.len());
    assert forall|j: int, q: int|
        0 <= j < idxs.len() && unconsumed(fwd, lens[j] as int, c2[j] as int, q) implies dir_lt(
        fwd,
        logs,
        m,
        #[trigger] at(idxs, j, q),
    ) by {
        assert(logs[idxs[j] as int].len() == logs[idxs[j] as int]@.len());
        if j == i {
            lemma_source_order(fwd, logs, idxs, i, p, q);
        } else {
            let f = fill_pos(fwd, lens[j] as int, c[j] as int);
            assert(c[j] < lens[j]);
            assert(!dir_lt(fwd, logs, at(idxs, j, f), m));
            if i < j {
                assert(idxs[i] != idxs[j]);
            } else {
                assert(idxs[j] != idxs[i]);
            }
            if q != f {
                lemma_source_order(fwd, logs, idxs, j, f, q);
            }
        }
    }
}

/// Consuming one more entry keeps `e` before everything still unconsumed.
proof fn lemma_precedes_shrink(
    fwd: bool,
    logs: Seq<Vec<LogEntry>>,
    idxs: Seq<usize>,
    lens: Seq<usize>,
    c: Seq<usize>,
    i: int,
    e: ScrollStateLog,
)
    requires
        precedes_rest(fwd, logs, idxs, lens, c, e),
        cursors_fit(c, lens),
        lens.len() == idxs.len(),
        0 <= i < c.len(),
        c[i] < lens[i],
    ensures
        precedes_rest(fwd, logs, idxs, lens, c.update(i, (c[i] + 1) as usize), e),
{
    let c2 = c.update(i, (c[i] + 1) as usize);
    assert forall|j: int, q: int|
        0 <= j < idxs.len() && unconsumed(fwd, lens[j] as int, c2[j] as int, q) implies dir_lt(
        fwd,
        logs,
        e,
        #[trigger] at(idxs, j, q),
    ) by {
        assert(unconsumed(fwd, lens[j] as int, c[j] as int, q));
    }
}

/// A fill state that keeps `fill_inv` has a contiguous window.
proof fn lemma_inv_contiguous(
    fwd: bool,
    logs: Seq<Vec<LogEntry>>,
    idxs: Seq<usize>,
    lens: Seq<usize>,
    c: Seq<usize>,
    win: Seq<ScrollStateLog>,
)
    requires
        cursors_fit(c, lens),
        lens.len() == idxs.len(),
        fill_inv(fwd, logs, idxs, lens, c, win),
    ensures
        contiguous_walk(fwd, logs, idxs, lens, win),
{
    assert forall|j: int, q: int|
        0 <= j < idxs.len() && 0 <= q < lens[j] && win.len() > 0 && dir_lt(
            fwd,
            logs,
            win[0],
            #[trigger] at(idxs, j, q),
        ) && dir_lt(fwd, logs, at(idxs, j, q), win.last()) implies win.contains(at(idxs, j, q)) by {
        if consumed(fwd, lens[j] as int, c[j] as int, q) {
            if !win.contains(at(idxs, j, q)) {
                assert(dir_lt(fwd, logs, at(idxs, j, q), win[0]));
            }
        } else {
            assert(unconsumed(fwd, lens[j] as int, c[j] as int, q));
            assert(precedes_rest(fwd, logs, idxs, lens, c, win[win.len() - 1]));
            assert(dir_lt(fwd, logs, win.last(), at(idxs, j, q)));
        }
    }
}

/// A fill from a state that keeps `fill_inv` yields a contiguous window and a
/// snapshot that cuts the merged order cleanly.
pub proof fn lemma_fill_contiguous(
    fwd: bool,
    logs: Seq<Vec<LogEntry>>,
    idxs: Seq<usize>,
    lens: Seq<usize>,
    c: Seq<usize>,
    ct: int,
    skip: int,
    need: int,
    win: Seq<ScrollStateLog>,
    snap: Option<Seq<usize>>,
    fuel: nat,
)
    requires
        sources_sorted(logs, idxs),
        ids_distinct(idxs),
        ids_valid(logs, idxs),
        lens == lens_of(logs, idxs),
        idxs.len() <= usize::MAX,
        cursors_fit(c, lens),
        win.len() == if ct >= skip { ct - skip } else { 0 },
        fill_inv(fwd, logs, idxs, lens, c, win),
        snap matches Some(x) ==> consistent(fwd, logs, idxs, lens, x),
    ensures
        contiguous_walk(
            fwd,
            logs,
            idxs,
            lens,
            fill_spec(fwd, logs, idxs, lens, c, ct, skip, need, win, snap, fuel).0,
        ),
        fill_spec(fwd, logs, idxs, lens, c, ct, skip, need, win, snap, fuel).1 matches Some(x)
            ==> consistent(fwd, logs, idxs, lens, x),
    decreases fuel,
{
    if fuel == 0 || win.len() >= need {
        lemma_inv_contiguous(fwd, logs, idxs, lens, c, win);
    } else {
        lemma_pick_fill_spec(fwd, logs, idxs, lens, c, idxs.len() as int);
        lemma_pick_fill_best(fwd, logs, idxs, lens, c, idxs.len() as int);
        match pick_fill_spec(fwd, logs, idxs, lens, c, idxs.len() as int) {
            None => {
                lemma_inv_contiguous(fwd, logs, idxs, lens, c, win);
            },
            Some(iu) => {
                let i = iu as int;
                let p = fill_pos(fwd, lens[i] as int, c[i] as int);
                let m = at(idxs, i, p);
                let c2 = c.update(i, (c[i] + 1) as usize);
                let win2 = if ct >= skip {
                    win.push(m)
                } else {
                    win
                };
                let snap2 = if ct == skip {
                    Some(c)
                } else {
                    snap
                };
                lemma_pick_precedes(fwd, logs, idxs, lens, c, i);
                if ct == skip {
                    assert forall|j: int, q: int|
                        0 <= j < idxs.len() && consumed(
                            fwd,
                            lens[j] as int,
                            c[j] as int,
                            q,
                        ) implies precedes_rest(fwd, logs, idxs, lens, c, #[trigger] at(idxs, j, q)) by {
                        assert(!win.contains(at(idxs, j, q)));
                    }
                }
                assert forall|j: int, q: int|
                    0 <= j < idxs.len() && consumed(fwd, lens[j] as int, c2[j] as int, q) implies win2.contains(
                    #[trigger] at(idxs, j, q),
                ) || (precedes_rest(fwd, logs, idxs, lens, c2, at(idxs, j, q)) && forall|k: int|
                    0 <= k < win2.len() ==> dir_lt(fwd, logs, at(idxs, j, q), win2[k])) by {
                    let e = at(idxs, j, q);
                    if j == i && q == p {
                        if ct >= skip {
                            assert(win2[win.len() as int] == m);
                        }
                    } else {
                        assert(consumed(fwd, lens[j] as int, c[j] as int, q));
                        if win.contains(e) {
                            let k = choose|k: int| 0 <= k < win.len() && win[k] == e;
                            assert(win2[k] == e);
                        } else {
                            lemma_precedes_shrink(fwd, logs, idxs, lens, c, i, e);
                            assert(unconsumed(fwd, lens[i] as int, c[i] as int, p));
                            assert(dir_lt(fwd, logs, e, m));
                            assert forall|k: int| 0 <= k < win2.len() implies dir_lt(
                                fwd,
                                logs,
                                e,
                                win2[k],
                            ) by {
                                if k < win.len() {
                                    assert(win2[k] == win[k]);
                                }
                            }
                        }
                    }
                }
                assert forall|k: int| 0 <= k < win2.len() implies precedes_rest(
                    fwd,
                    logs,
                    idxs,
                    lens,
                    c2,
                    #[trigger] win2[k],
                ) by {
                    if k < win.len() {
                        assert(win2[k] == win[k]);
                        lemma_precedes_shrink(fwd, logs, idxs, lens, c, i, win[k]);
                    }
                }
                assert(fill_inv(fwd, logs, idxs, lens, c2, win2));
                lemma_fill_contiguous(
                    fwd,
                    logs,
                    idxs,
                    lens,
                    c2,
                    ct + 1,
                    skip,
                    need,
                    win2,
                    snap2,
                    (fuel - 1) as nat,
                );
            },
        }
    }
}

/// Rewinding keeps a clean cut clean: the entry it un-consumes is the one
/// consumed last.
pub proof fn lemma_rewind_consistent(
    fwd: bool,
    logs: Seq<Vec<LogEntry>>,
    idxs: Seq<usize>,
    lens: Seq<usize>,
    c: Seq<usize>,
    ct: int,
    skip: int,
    fuel: nat,
)
    requires
        sources_sorted(logs, idxs),
        ids_distinct(idxs),
        ids_valid(logs, idxs),
        lens == lens_of(logs, idxs),
        idxs.len() <= usize::MAX,
        cursors_fit(c, lens),
        consistent(fwd, logs, idxs, lens, c),
    ensures
        consistent(fwd, logs, idxs, lens, rewind_spec(fwd, logs, idxs, lens, c, ct, skip, fuel)),
    decreases fuel,
{
    if fuel > 0 && ct > skip {
        lemma_pick_rewind_spec(fwd, logs, idxs, lens, c, idxs.len() as int);
        lemma_pick_rewind_best(fwd, logs, idxs, lens, c, idxs.len() as int);
        match pick_rewind_spec(fwd, logs, idxs, lens, c, idxs.len() as int) {
            None => {},
            Some(iu) => {
                let i = iu as int;
                let r = rewind_pos(fwd, lens[i] as int, c[i] as int);
                let c2 = c.update(i, (c[i] - 1) as usize);
                assert(logs[idxs[i] as int].len() == logs[idxs[i] as int]@.len());
                assert forall|j: int, q: int|
                    0 <= j < idxs.len() && consumed(fwd, lens[j] as int, c2[j] as int, q) implies precedes_rest(
                    fwd,
                    logs,
                    idxs,
                    lens,
                    c2,
                    #[trigger] at(idxs, j, q),
                ) by {
                    assert(consumed(fwd, lens[j] as int, c[j] as int, q));
                    assert(precedes_rest(fwd, logs, idxs, lens, c, at(idxs, j, q)));
                    assert(logs[idxs[j] as int].len() == logs[idxs[j] as int]@.len());
                    assert forall|j2: int, q2: int|
                        0 <= j2 < idxs.len() && unconsumed(
                            fwd,
                            lens[j2] as int,
                            c2[j2] as int,
                            q2,
                        ) implies dir_lt(fwd, logs, at(idxs, j, q), #[trigger] at(idxs, j2, q2)) by {
                        if j2 == i && q2 == r {
                            if j == i {
                                lemma_source_order(fwd, logs, idxs, i, q, r);
                            } else {
                                let f = rewind_pos(fwd, lens[j] as int, c[j] as int);
                                assert(c[j] > 0);
                                assert(!dir_lt(fwd, logs, at(idxs, i, r), at(idxs, j, f)));
                                if i < j {
                                    assert(idxs[i] != idxs[j]);
                                } else {
                                    assert(idxs[j] != idxs[i]);
                                }
                                if q != f {
                                    lemma_source_order(fwd, logs, idxs, j, q, f);
                                }
                            }
                        } else {
                            assert(unconsumed(fwd, lens[j2] as int, c[j2] as int, q2));
                        }
                    }
                }
                lemma_rewind_consistent(
                    fwd,
                    logs,
                    idxs,
                    lens,
                    c2,
                    ct - 1,
                    skip,
                    (fuel - 1) as nat,
                );
            },
        }
    }
}

/// Steps cursors back, always un-consuming the entry that was consumed last,
/// until at most `skip` entries are consumed. Returns the new number consumed.
pub fn rewind(
    logs: &Vec<Vec<LogEntry>>,
    idxs: &Vec<usize>,
    lens: &Vec<usize>,
    c: &mut Vec<usize>,
    ct: usize,
    skip: usize,
    fwd: bool,
) -> (r: usize)
    requires
        ids_valid(logs@, idxs@),
        lens@ == lens_of(logs@, idxs@),
        cursors_fit(old(c)@, lens@),
        ct == sum_of(old(c)@),
    ensures
        cursors_fit(final(c)@, lens@),
        r == sum_of(final(c)@),
        r == if ct <= skip { ct } else { skip },
        final(c)@ == rewind_spec(fwd, logs@, idxs@, lens@, old(c)@, ct as int, skip as int, ct as nat),
{
    let ghost ct0 = ct;
    let ghost c0 = c@;
    let mut ct = ct;
    while ct > skip
        invariant
            ids_valid(logs@, idxs@),
            lens@ == lens_of(logs@, idxs@),
            cursors_fit(c@, lens@),
            ct == sum_of(c@),
            ct0 <= skip ==> ct == ct0,
            ct0 > skip ==> ct >= skip,
            rewind_spec(fwd, logs@, idxs@, lens@, c@, ct as int, skip as int, ct as nat)
                == rewind_spec(fwd, logs@, idxs@, lens@, c0, ct0 as int, skip as int, ct0 as nat),
        decreases ct,
    {
        match pick_rewind(logs, idxs, lens, c, fwd) {
            None => {
                proof {
                    lemma_sum_zero(c@);
                }
            },
            Some(i) => {
                let ci = c[i];
                proof {
                    lemma_sum_update(c@, i as int, (ci - 1) as usize);
                }
                c.set(i, ci - 1);
                ct -= 1;
            },
        }
    }
    ct
}

/// Walks the merge in direction `fwd` from cursors `c`, which have consumed
/// `ct` entries: consumes entries until `skip` are consumed, then collects
/// the next `need` entries. Returns the collected entries in walk order, and
/// the cursors as they stood when exactly `skip` entries were consumed.
pub fn fill(
    logs: &Vec<Vec<LogEntry>>,
    idxs: &Vec<usize>,
    lens: &Vec<usize>,
    c: Vec<usize>,
    ct: usize,
    skip: usize,
    need: usize,
    fwd: bool,
) -> (r: (Vec<ScrollStateLog>, Option<Vec<usize>>))
    requires
        ids_valid(logs@, idxs@),
        lens@ == lens_of(logs@, idxs@),
        cursors_fit(c@, lens@),
        ct == sum_of(c@),
        ct <= skip,
        skip + need <= sum_of(lens@) <= usize::MAX,
    ensures
        r.0.len() == need,
        forall|k: int| 0 <= k < r.0.len() ==> entry_valid(logs@, idxs@, #[trigger] r.0[k]),
        r.1 matches Some(s) ==> cursors_fit(s@, lens@) && sum_of(s@) == skip,
        need > 0 <==> r.1 is Some,
        (r.0@, snap_view(r.1)) == fill_spec(
            fwd,
            logs@,
            idxs@,
            lens@,
            c@,
            ct as int,
            skip as int,
            need as int,
            seq![],
            None,
            (sum_of(lens@) - ct) as nat,
        ),
        sources_sorted(logs@, idxs@) && ids_distinct(idxs@) ==> forall|a: int, b: int|
            0 <= a < b < r.0.len() ==> dir_lt(fwd, logs@, #[trigger] r.0[a], #[trigger] r.0[b]),
{
    let ghost ordered = sources_sorted(logs@, idxs@) && ids_distinct(idxs@);
    let ghost c0 = c@;
    let ghost ct0 = ct;
    let mut c = c;
    let mut ct = ct;
    let mut win: Vec<ScrollStateLog> = Vec::new();
    let mut snap: Option<Vec<usize>> = None;
    while win.len() < need
        invariant
            ids_valid(logs@, idxs@),
            lens@ == lens_of(logs@, idxs@),
            cursors_fit(c@, lens@),
            ct == sum_of(c@),
            skip + need <= sum_of(lens@) <= usize::MAX,
            win.len() <= need,
            win.len() == if ct >= skip { ct - skip } else { 0 },
            forall|k: int| 0 <= k < win.len() ==> entry_valid(logs@, idxs@, #[trigger] win[k]),
            snap matches Some(s) ==> cursors_fit(s@, lens@) && sum_of(s@) == skip,
            ct > skip ==> snap is Some,
            need == 0 ==> snap is None,
            fill_spec(
                fwd,
                logs@,
                idxs@,
                lens@,
                c@,
                ct as int,
                skip as int,
                need as int,
                win@,
                snap_view(snap),
                (sum_of(lens@) - ct) as nat,
            ) == fill_spec(
                fwd,
                logs@,
                idxs@,
                lens@,
                c0,
                ct0 as int,
                skip as int,
                need as int,
                seq![],
                None,
                (sum_of(lens@) - ct0) as nat,
            ),
            ordered == (sources_sorted(logs@, idxs@) && ids_distinct(idxs@)),
            ordered ==> forall|a: int, b: int|
                0 <= a < b < win.len() ==> dir_lt(fwd, logs@, #[trigger] win[a], #[trigger] win[b]),
            ordered ==> forall|k: int|
                0 <= k < win.len() ==> precedes_rest(fwd, logs@, idxs@, lens@, c@, #[trigger] win[k]),
        decreases sum_of(lens@) - ct,
    {
        proof {
            lemma_sum_le(c@, lens@);
        }
        match pick_fill(logs, idxs, lens, &c, fwd) {
            None => {},
            Some(i) => {
                let ci = c[i];
                let p: usize = if fwd { ci } else { lens[i] - ci - 1 };
                let e = ScrollStateLog { runner_idx: idxs[i], log_pos: p };
                let ghost c_old = c@;
                assert(e == at(idxs@, i as int, fill_pos(fwd, lens[i as int] as int, ci as int)));
                assert(logs@[idxs[i as int] as int].len() == logs@[idxs[i as int] as int]@.len());
                assert(idxs@.contains(idxs[i as int])) by {
                    assert(idxs@[i as int] == idxs[i as int]);
                }
                if ct == skip {
                    let s = c.clone();
                    assert(s@ =~= c@);
                    snap = Some(s);
                }
                if ct >= skip {
                    win.push(e);
                }
                proof {
                    lemma_sum_update(c@, i as int, (ci + 1) as usize);
                }
                c.set(i, ci + 1);
                ct += 1;
                proof {
                    if ordered {
                        lemma_pick_precedes(fwd, logs@, idxs@, lens@, c_old, i as int);
                        assert forall|k: int| 0 <= k < win.len() implies precedes_rest(
                            fwd,
                            logs@,
                            idxs@,
                            lens@,
                            c@,
                            #[trigger] win[k],
                        ) by {
                            if win[k] != e || k < win.len() - 1 || ct <= skip {
                                assert(precedes_rest(fwd, logs@, idxs@, lens@, c_old, win[k]));
                                assert forall|j: int, q: int|
                                    0 <= j < idxs.len() && unconsumed(
                                        fwd,
                                        lens[j] as int,
                                        c@[j] as int,
                                        q,
                                    ) implies dir_lt(fwd, logs@, win[k], #[trigger] at(idxs@, j, q)) by {
                                    assert(unconsumed(fwd, lens[j] as int, c_old[j] as int, q));
                                }
                            }
                        }
                        assert forall|a: int, b: int|
                            0 <= a < b < win.len() implies dir_lt(
                            fwd,
                            logs@,
                            #[trigger] win[a],
                            #[trigger] win[b],
                        ) by {
                            if b == win.len() - 1 && ct > skip {
                                assert(precedes_rest(fwd, logs@, idxs@, lens@, c_old, win[a]));
                                assert(unconsumed(
                                    fwd,
                                    lens[i as int] as int,
                                    c_old[i as int] as int,
                                    fill_pos(fwd, lens[i as int] as int, ci as int),
                                ));
                            }
                        }
                    }
                }
            },
        }
    }
    (win, snap)
}

} // verus!
