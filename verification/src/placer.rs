//! The placer: lays a duration onto the timeline from a start instant,
//! as the stretches of free time that the day's unplugged windows leave.

use vstd::prelude::*;
use crate::clock::valid_instant;
use crate::clock::day_start;
use crate::clock::instant_day_start;
use crate::clock::INSTANT_MAX;
use crate::models::UnpluggedTime;

verus! {

/// Whether every window in the list is a non-empty stretch within a day.
pub open spec fn windows_wf(windows: Seq<UnpluggedTime>) -> bool {
    forall|i: int| 0 <= i < windows.len() ==> (#[trigger] windows[i]).wf()
}

/// Whether window `w` belongs to workspace `ws` and, laid onto the day
/// that starts at `base`, contains instant `t`.
pub open spec fn window_covers(w: UnpluggedTime, ws: i64, base: int, t: int) -> bool {
    w.workspace_id == ws && base + w.start_time <= t < base + w.end_time
}

/// Whether window `w` belongs to workspace `ws` and, laid onto the day
/// that starts at `base`, starts after instant `t`.
pub open spec fn window_ahead(w: UnpluggedTime, ws: i64, base: int, t: int) -> bool {
    w.workspace_id == ws && t < base + w.start_time
}

/// Whether window `w` of workspace `ws`, laid onto the day that starts at
/// `base`, shares a minute with the stretch from `a` to `b`.
pub open spec fn window_overlaps(w: UnpluggedTime, ws: i64, base: int, a: int, b: int) -> bool {
    w.workspace_id == ws && base + w.start_time < b && a < base + w.end_time
}

/// Whether some window of workspace `ws` contains instant `t`.
pub open spec fn covered(windows: Seq<UnpluggedTime>, ws: i64, base: int, t: int) -> bool {
    exists|i: int| 0 <= i < windows.len() && window_covers(#[trigger] windows[i], ws, base, t)
}

/// The index of the first window at or after `from` that contains `t`, or
/// the number of windows when none does.
pub open spec fn first_covering(
    windows: Seq<UnpluggedTime>,
    ws: i64,
    base: int,
    t: int,
    from: int,
) -> int
    decreases windows.len() - from,
{
    if from < 0 || from >= windows.len() {
        windows.len() as int
    } else if window_covers(windows[from], ws, base, t) {
        from
    } else {
        first_covering(windows, ws, base, t, from + 1)
    }
}

/// Among the first `n` windows, the index of the one that starts soonest
/// after `t`; of several that start together, the first.
pub open spec fn next_window(
    windows: Seq<UnpluggedTime>,
    ws: i64,
    base: int,
    t: int,
    n: int,
) -> Option<int>
    decreases n,
{
    if n <= 0 || n > windows.len() {
        None
    } else {
        let prev = next_window(windows, ws, base, t, n - 1);
        if window_ahead(windows[n - 1], ws, base, t) {
            match prev {
                Some(j) => if windows[j].start_time <= windows[n - 1].start_time {
                    Some(j)
                } else {
                    Some(n - 1)
                },
                None => Some(n - 1),
            }
        } else {
            prev
        }
    }
}

/// What `first_covering` finds is a window that contains `t`, and no
/// window before it does.
pub proof fn lemma_first_covering(
    windows: Seq<UnpluggedTime>,
    ws: i64,
    base: int,
    t: int,
    from: int,
)
    requires
        0 <= from <= windows.len(),
    ensures
        from <= first_covering(windows, ws, base, t, from) <= windows.len(),
        first_covering(windows, ws, base, t, from) < windows.len() ==> window_covers(
            windows[first_covering(windows, ws, base, t, from)],
            ws,
            base,
            t,
        ),
        forall|i: int|
            from <= i < first_covering(windows, ws, base, t, from) ==> !window_covers(
                #[trigger] windows[i],
                ws,
                base,
                t,
            ),
    decreases windows.len() - from,
{
    if from < windows.len() && !window_covers(windows[from], ws, base, t) {
        lemma_first_covering(windows, ws, base, t, from + 1);
    }
}

/// What `next_window` finds starts after `t`, and no window among the
/// first `n` starts after `t` and before it.
pub proof fn lemma_next_window(windows: Seq<UnpluggedTime>, ws: i64, base: int, t: int, n: int)
    requires
        0 <= n <= windows.len(),
    ensures
        match next_window(windows, ws, base, t, n) {
            Some(j) => {
                &&& 0 <= j < n
                &&& window_ahead(windows[j], ws, base, t)
                &&& forall|i: int|
                    0 <= i < n && window_ahead(#[trigger] windows[i], ws, base, t)
                        ==> windows[j].start_time <= windows[i].start_time
            },
            None => forall|i: int| 0 <= i < n ==> !window_ahead(#[trigger] windows[i], ws, base, t),
        },
    decreases n,
{
    if n > 0 {
        lemma_next_window(windows, ws, base, t, n - 1);
    }
}

/// The stretches that realise `left` minutes from `cursor` on, on the day
/// that starts at `base`: while a window contains the cursor, the cursor
/// moves to that window's end; a window that starts before the remaining
/// minutes are used up ends the current stretch at its start, and the
/// rest resumes at its end. `None` when the last stretch would end after
/// the last instant the scheduler stores.
pub open spec fn place_from(
    windows: Seq<UnpluggedTime>,
    ws: i64,
    base: int,
    cursor: int,
    left: int,
) -> Option<Seq<(i64, i64)>>
    decreases base + 1440 - cursor,
    when windows_wf(windows) && base <= cursor < base + 1440
{
    if left <= 0 {
        Some(Seq::<(i64, i64)>::empty())
    } else {
        let c = first_covering(windows, ws, base, cursor, 0);
        if c < windows.len() {
            proof {
                lemma_first_covering(windows, ws, base, cursor, 0);
            }
            place_from(windows, ws, base, base + windows[c].end_time, left)
        } else {
            proof {
                lemma_next_window(windows, ws, base, cursor, windows.len() as int);
            }
            match next_window(windows, ws, base, cursor, windows.len() as int) {
                Some(j) => if base + windows[j].start_time < cursor + left {
                    match place_from(
                        windows,
                        ws,
                        base,
                        base + windows[j].end_time,
                        left - (base + windows[j].start_time - cursor),
                    ) {
                        Some(rest) => Some(
                            seq![(cursor as i64, (base + windows[j].start_time) as i64)] + rest,
                        ),
                        None => None,
                    }
                } else {
                    last_stretch(cursor, left)
                },
                None => last_stretch(cursor, left),
            }
        }
    }
}

/// The single stretch of `left` minutes from `cursor`, when it ends
/// within the stored range.
pub open spec fn last_stretch(cursor: int, left: int) -> Option<Seq<(i64, i64)>> {
    if cursor + left <= INSTANT_MAX {
        Some(seq![(cursor as i64, (cursor + left) as i64)])
    } else {
        None
    }
}

/// The stretches that realise `remaining` minutes from `start` on.
pub open spec fn place_spec(
    windows: Seq<UnpluggedTime>,
    ws: i64,
    start: int,
    remaining: int,
) -> Option<Seq<(i64, i64)>> {
    place_from(windows, ws, day_start(start), start, remaining)
}

/// The minutes that a list of stretches holds in all.
pub open spec fn total_minutes(stretches: Seq<(i64, i64)>) -> int
    decreases stretches.len(),
{
    if stretches.len() == 0 {
        0
    } else {
        (stretches[0].1 - stretches[0].0) + total_minutes(stretches.drop_first())
    }
}

/// What the placer owes for the stretches it emits from `cursor` on:
/// each is non-empty, starts on the day of `base` and lies within the
/// stored range; none shares a minute with a window of the workspace;
/// they come in order of time; and every minute that is skipped before
/// the first stretch or between two stretches lies in a window.
pub open spec fn placement_ok(
    windows: Seq<UnpluggedTime>,
    ws: i64,
    base: int,
    cursor: int,
    stretches: Seq<(i64, i64)>,
) -> bool {
    &&& forall|k: int|
        0 <= k < stretches.len() ==> {
            &&& (#[trigger] stretches[k]).0 < stretches[k].1
            &&& cursor <= stretches[k].0 < base + 1440
            &&& stretches[k].1 <= INSTANT_MAX
        }
    &&& forall|k: int, i: int|
        0 <= k < stretches.len() && 0 <= i < windows.len() ==> !window_overlaps(
            #[trigger] windows[i],
            ws,
            base,
            (#[trigger] stretches[k]).0 as int,
            stretches[k].1 as int,
        )
    &&& forall|k: int|
        0 <= k < stretches.len() - 1 ==> (#[trigger] stretches[k]).1 <= stretches[k + 1].0
    &&& stretches.len() > 0 ==> forall|t: int|
        cursor <= t < stretches[0].0 ==> #[trigger] covered(windows, ws, base, t)
    &&& forall|k: int, t: int|
        0 <= k < stretches.len() - 1 && (#[trigger] stretches[k]).1 <= t < stretches[k + 1].0
            ==> #[trigger] covered(windows, ws, base, t)
}

/// The placer's contract: whatever `place_from` emits for a positive
/// number of minutes holds exactly that many minutes, avoids every
/// window of the workspace, and is contiguous but for the windows it
/// skips.
pub proof fn lemma_placement(
    windows: Seq<UnpluggedTime>,
    ws: i64,
    base: int,
    cursor: int,
    left: int,
)
    requires
        windows_wf(windows),
        base == day_start(cursor),
        valid_instant(cursor),
    ensures
        match place_from(windows, ws, base, cursor, left) {
            Some(stretches) => {
                &&& placement_ok(windows, ws, base, cursor, stretches)
                &&& total_minutes(stretches) == if left > 0 {
                    left
                } else {
                    0
                }
                &&& left > 0 ==> stretches.len() > 0
                &&& left <= 0 ==> stretches.len() == 0
            },
            None => left > 0,
        },
    decreases base + 1440 - cursor,
{
    if left > 0 {
        let c = first_covering(windows, ws, base, cursor, 0);
        lemma_first_covering(windows, ws, base, cursor, 0);
        if c < windows.len() {
            let next = base + windows[c].end_time;
            lemma_placement(windows, ws, base, next, left);
            match place_from(windows, ws, base, next, left) {
                Some(stretches) => {
                    assert forall|t: int| cursor <= t < stretches[0].0 implies #[trigger] covered(
                        windows,
                        ws,
                        base,
                        t,
                    ) by {
                        if t < next {
                            assert(window_covers(windows[c], ws, base, t));
                        }
                    }
                },
                None => {},
            }
        } else {
            lemma_next_window(windows, ws, base, cursor, windows.len() as int);
            let nw = next_window(windows, ws, base, cursor, windows.len() as int);
            if nw is Some && base + windows[nw->0].start_time < cursor + left {
                let j = nw->0;
                let cut = base + windows[j].start_time;
                let next = base + windows[j].end_time;
                lemma_placement(windows, ws, base, next, left - (cut - cursor));
                match place_from(windows, ws, base, next, left - (cut - cursor)) {
                    Some(rest) => {
                        let head = (cursor as i64, cut as i64);
                        let all = seq![head] + rest;
                        assert(all.drop_first() =~= rest);
                        assert(all[0] == head);
                        assert forall|k: int| 0 <= k < all.len() implies {
                            &&& (#[trigger] all[k]).0 < all[k].1
                            &&& cursor <= all[k].0 < base + 1440
                            &&& all[k].1 <= INSTANT_MAX
                        } by {
                            if k > 0 {
                                assert(all[k] == rest[k - 1]);
                            }
                        }
                        assert forall|k: int, i: int|
                            0 <= k < all.len() && 0 <= i < windows.len() implies !window_overlaps(
                            #[trigger] windows[i],
                            ws,
                            base,
                            (#[trigger] all[k]).0 as int,
                            all[k].1 as int,
                        ) by {
                            if k > 0 {
                                assert(all[k] == rest[k - 1]);
                            } else {
                                lemma_free_stretch(windows, ws, base, cursor, cut, i);
                            }
                        }
                        assert forall|k: int| 0 <= k < all.len() - 1 implies (#[trigger] all[k]).1
                            <= all[k + 1].0 by {
                            assert(all[k + 1] == rest[k]);
                            if k > 0 {
                                assert(all[k] == rest[k - 1]);
                            }
                        }
                        assert forall|k: int, t: int|
                            0 <= k < all.len() - 1 && (#[trigger] all[k]).1 <= t < all[k
                                + 1].0 implies #[trigger] covered(windows, ws, base, t) by {
                            assert(all[k + 1] == rest[k]);
                            if k > 0 {
                                assert(all[k] == rest[k - 1]);
                            } else {
                                if t < next {
                                    assert(window_covers(windows[j], ws, base, t));
                                }
                            }
                        }
                    },
                    None => {},
                }
            } else {
                if cursor + left <= INSTANT_MAX {
                    let only = seq![(cursor as i64, (cursor + left) as i64)];
                    assert(only.drop_first() =~= Seq::<(i64, i64)>::empty());
                    assert(total_minutes(only.drop_first()) == 0);
                    assert forall|k: int, i: int|
                        0 <= k < only.len() && 0 <= i < windows.len() implies !window_overlaps(
                        #[trigger] windows[i],
                        ws,
                        base,
                        (#[trigger] only[k]).0 as int,
                        only[k].1 as int,
                    ) by {
                        lemma_free_stretch(windows, ws, base, cursor, cursor + left, i);
                    }
                }
            }
        }
    }
}

/// A stretch from a cursor that no window contains, ending no later than
/// the soonest start of a window ahead, shares no minute with a window.
proof fn lemma_free_stretch(
    windows: Seq<UnpluggedTime>,
    ws: i64,
    base: int,
    cursor: int,
    end: int,
    i: int,
)
    requires
        windows_wf(windows),
        0 <= i < windows.len(),
        first_covering(windows, ws, base, cursor, 0) >= windows.len(),
        match next_window(windows, ws, base, cursor, windows.len() as int) {
            Some(j) => end <= base + windows[j].start_time,
            None => true,
        },
    ensures
        !window_overlaps(windows[i], ws, base, cursor, end),
{
    lemma_first_covering(windows, ws, base, cursor, 0);
    lemma_next_window(windows, ws, base, cursor, windows.len() as int);
    assert(!window_covers(windows[i], ws, base, cursor));
    if window_ahead(windows[i], ws, base, cursor) {
    }
}

fn find_covering(windows: &Vec<UnpluggedTime>, ws: i64, base: i64, t: i64) -> (c: usize)
    requires
        windows_wf(windows@),
        valid_instant(base as int),
    ensures
        c == first_covering(windows@, ws, base as int, t as int, 0),
        c <= windows.len(),
{
    let mut i: usize = 0;
    while i < windows.len()
        invariant
            i <= windows.len(),
            windows_wf(windows@),
            valid_instant(base as int),
            first_covering(windows@, ws, base as int, t as int, 0) == first_covering(
                windows@,
                ws,
                base as int,
                t as int,
                i as int,
            ),
        decreases windows.len() - i,
    {
        let w = &windows[i];
        if w.workspace_id == ws && base + w.start_time <= t && t < base + w.end_time {
            return i;
        }
        i = i + 1;
    }
    i
}

fn find_next_window(windows: &Vec<UnpluggedTime>, ws: i64, base: i64, t: i64) -> (r: Option<usize>)
    requires
        windows_wf(windows@),
        valid_instant(base as int),
    ensures
        match r {
            Some(j) => next_window(windows@, ws, base as int, t as int, windows.len() as int)
                == Some(j as int) && j < windows.len(),
            None => next_window(windows@, ws, base as int, t as int, windows.len() as int)
                is None,
        },
{
    let mut best: Option<usize> = None;
    let mut i: usize = 0;
    while i < windows.len()
        invariant
            i <= windows.len(),
            windows_wf(windows@),
            valid_instant(base as int),
            match best {
                Some(j) => next_window(windows@, ws, base as int, t as int, i as int) == Some(
                    j as int,
                ) && j < i,
                None => next_window(windows@, ws, base as int, t as int, i as int) is None,
            },
        decreases windows.len() - i,
    {
        let w = &windows[i];
        if w.workspace_id == ws && t < base + w.start_time {
            match best {
                Some(j) => {
                    if windows[j].start_time > w.start_time {
                        best = Some(i);
                    }
                },
                None => {
                    best = Some(i);
                },
            }
        }
        i = i + 1;
    }
    best
}

/// Computes the stretches that realise `remaining` minutes from `start`
/// on, around the unplugged windows of workspace `ws`. The day boundary
/// is not consulted: the last stretch may end on a later day. `None`
/// when that stretch would end after the last instant the scheduler
/// stores.
pub fn place_intervals(
    windows: &Vec<UnpluggedTime>,
    ws: i64,
    start: i64,
    remaining: i64,
) -> (r: Option<Vec<(i64, i64)>>)
    requires
        windows_wf(windows@),
        valid_instant(start as int),
    ensures
        match r {
            Some(stretches) => place_spec(windows@, ws, start as int, remaining as int) == Some(
                stretches@,
            ),
            None => place_spec(windows@, ws, start as int, remaining as int) is None,
        },
        r matches Some(stretches) ==> {
            &&& placement_ok(windows@, ws, day_start(start as int), start as int, stretches@)
            &&& total_minutes(stretches@) == if remaining > 0 {
                remaining as int
            } else {
                0
            }
            &&& (remaining > 0 <==> stretches@.len() > 0)
        },
{
    let base: i64 = instant_day_start(start);
    let mut cursor: i64 = start;
    let mut left: i64 = remaining;
    let mut out: Vec<(i64, i64)> = Vec::new();
    let mut finished = false;
    let mut failed = false;
    proof {
        lemma_placement(windows@, ws, base as int, start as int, remaining as int);
        assert(out@ + place_from(windows@, ws, base as int, start as int, remaining as int)->0
            =~= place_from(windows@, ws, base as int, start as int, remaining as int)->0);
    }
    while !finished
        invariant
            windows_wf(windows@),
            valid_instant(start as int),
            base == day_start(start as int),
            base <= cursor < base + 1440,
            valid_instant(cursor as int),
            !finished ==> !failed,
            !finished ==> match place_from(windows@, ws, base as int, cursor as int, left as int) {
                Some(rest) => place_from(windows@, ws, base as int, start as int, remaining as int)
                    == Some(out@ + rest),
                None => place_from(windows@, ws, base as int, start as int, remaining as int)
                    is None,
            },
            finished && !failed ==> place_from(
                windows@,
                ws,
                base as int,
                start as int,
                remaining as int,
            ) == Some(out@),
            finished && failed ==> place_from(
                windows@,
                ws,
                base as int,
                start as int,
                remaining as int,
            ) is None,
        decreases
                if finished {
                    0
                } else {
                    base + 1441 - cursor
                },
    {
        if left <= 0 {
            assert(out@ + Seq::<(i64, i64)>::empty() =~= out@);
            finished = true;
        } else {
            let c = find_covering(windows, ws, base, cursor);
            proof {
                lemma_first_covering(windows@, ws, base as int, cursor as int, 0);
                lemma_next_window(windows@, ws, base as int, cursor as int, windows.len() as int);
            }
            if c < windows.len() {
                cursor = base + windows[c].end_time;
            } else {
                let nw = find_next_window(windows, ws, base, cursor);
                let mut split: Option<usize> = None;
                match nw {
                    Some(j) => {
                        if base + windows[j].start_time - cursor < left {
                            split = Some(j);
                        }
                    },
                    None => {},
                }
                match split {
                    Some(j) => {
                        let cut: i64 = base + windows[j].start_time;
                        let ghost before = out@;
                        let ghost rest = place_from(
                            windows@,
                            ws,
                            base as int,
                            base + windows[j as int].end_time,
                            left - (cut - cursor),
                        );
                        out.push((cursor, cut));
                        proof {
                            if rest is Some {
                                assert(before + (seq![(cursor, cut)] + rest->0) =~= out@
                                    + rest->0);
                            }
                        }
                        left = left - (cut - cursor);
                        cursor = base + windows[j].end_time;
                    },
                    None => {
                        if left > INSTANT_MAX - cursor {
                            failed = true;
                            finished = true;
                        } else {
                            let ghost before = out@;
                            out.push((cursor, cursor + left));
                            proof {
                                assert(before + seq![(cursor, (cursor + left) as i64)] =~= out@);
                            }
                            finished = true;
                        }
                    },
                }
            }
        }
    }
    if failed {
        None
    } else {
        Some(out)
    }
}

} // verus!
