//! The reorderer: lays the open blocks of a workspace out anew, one after
//! the other, in an order the user gives.

use vstd::prelude::*;
use crate::clock::day_start;
use crate::clock::instant_day_start;
use crate::clock::valid_instant;
use crate::error::AppError;
use crate::error::ErrorKind;
use crate::error::invalid_input;
use crate::models::BlockStatus;
use crate::models::TimeBlock;
use crate::models::UnpluggedTime;
use crate::models::copy_blocks;
use crate::placer::window_covers;
use crate::placer::windows_wf;
use crate::repository::Repository;
use crate::repository::Tables;
use crate::transitioner::lemma_same_ids_wf;

verus! {

/// Whether a block takes part in a reorder of workspace `ws`: it belongs
/// to the workspace and is neither done nor a view row.
pub open spec fn is_open_in(b: TimeBlock, ws: i64) -> bool {
    b.workspace_id == ws && b.status != BlockStatus::Done && b.status != BlockStatus::Unplugged
}

/// The earliest start among the open blocks of workspace `ws`; `None`
/// when the workspace has no open block.
pub open spec fn earliest_open_start(blocks: Seq<TimeBlock>, ws: i64) -> Option<i64>
    decreases blocks.len(),
{
    if blocks.len() == 0 {
        None
    } else {
        let rest = earliest_open_start(blocks.drop_last(), ws);
        let b = blocks.last();
        if is_open_in(b, ws) {
            match rest {
                Some(s) => if s <= b.start_time {
                    Some(s)
                } else {
                    Some(b.start_time)
                },
                None => Some(b.start_time),
            }
        } else {
            rest
        }
    }
}

/// The earliest open start is the start of an open block of the
/// workspace, and no open block of the workspace starts sooner.
pub proof fn lemma_earliest_open_start(blocks: Seq<TimeBlock>, ws: i64)
    ensures
        match earliest_open_start(blocks, ws) {
            Some(s) => {
                &&& exists|i: int|
                    0 <= i < blocks.len() && is_open_in(#[trigger] blocks[i], ws)
                        && blocks[i].start_time == s
                &&& forall|i: int|
                    0 <= i < blocks.len() && is_open_in(#[trigger] blocks[i], ws) ==> s
                        <= blocks[i].start_time
            },
            None => forall|i: int| 0 <= i < blocks.len() ==> !is_open_in(#[trigger] blocks[i], ws),
        },
    decreases blocks.len(),
{
    if blocks.len() > 0 {
        let front = blocks.drop_last();
        lemma_earliest_open_start(front, ws);
        let n = blocks.len() - 1;
        assert forall|i: int| 0 <= i < n implies front[i] == blocks[i] by {}
        match earliest_open_start(front, ws) {
            Some(s) => {
                let w = choose|i: int|
                    0 <= i < front.len() && is_open_in(#[trigger] front[i], ws)
                        && front[i].start_time == s;
                assert(blocks[w] == front[w]);
                if is_open_in(blocks[n], ws) && blocks[n].start_time < s {
                    assert(is_open_in(blocks[n], ws) && blocks[n].start_time
                        == blocks[n].start_time);
                }
                assert forall|i: int|
                    0 <= i < blocks.len() && is_open_in(
                        #[trigger] blocks[i],
                        ws,
                    ) implies earliest_open_start(blocks, ws)->0 <= blocks[i].start_time by {
                    if i < n {
                        assert(front[i] == blocks[i]);
                    }
                }
            },
            None => {
                assert forall|i: int| 0 <= i < n implies !is_open_in(#[trigger] blocks[i], ws) by {
                    assert(front[i] == blocks[i]);
                }
                if is_open_in(blocks[n], ws) {
                    assert(is_open_in(blocks[n], ws) && blocks[n].start_time
                        == blocks[n].start_time);
                }
            },
        }
    }
}

/// The position of the open block of workspace `ws` with the given id,
/// searching from `from`; the number of blocks when there is none.
pub open spec fn open_position(blocks: Seq<TimeBlock>, ws: i64, id: i64, from: int) -> int
    decreases blocks.len() - from,
{
    if from < 0 || from >= blocks.len() {
        blocks.len() as int
    } else if is_open_in(blocks[from], ws) && blocks[from].id == id {
        from
    } else {
        open_position(blocks, ws, id, from + 1)
    }
}

/// What `open_position` finds is an open block of the workspace with the
/// id.
pub proof fn lemma_open_position(blocks: Seq<TimeBlock>, ws: i64, id: i64, from: int)
    requires
        0 <= from <= blocks.len(),
    ensures
        from <= open_position(blocks, ws, id, from) <= blocks.len(),
        open_position(blocks, ws, id, from) < blocks.len() ==> is_open_in(
            blocks[open_position(blocks, ws, id, from)],
            ws,
        ) && blocks[open_position(blocks, ws, id, from)].id == id,
    decreases blocks.len() - from,
{
    if from < blocks.len() && !(is_open_in(blocks[from], ws) && blocks[from].id == id) {
        lemma_open_position(blocks, ws, id, from + 1);
    }
}

/// Where the cursor stands after one pass over the first `n` windows:
/// each window of the workspace that, laid onto the cursor's day,
/// contains the cursor as it then is moves the cursor to its end.
pub open spec fn skip_windows(windows: Seq<UnpluggedTime>, ws: i64, cursor: int, n: int) -> int
    decreases n,
{
    if n <= 0 || n > windows.len() {
        cursor
    } else {
        let c = skip_windows(windows, ws, cursor, n - 1);
        if window_covers(windows[n - 1], ws, day_start(c), c) {
            day_start(c) + windows[n - 1].end_time
        } else {
            c
        }
    }
}

/// One pass over the windows moves the cursor forward within its day.
pub proof fn lemma_skip_windows(windows: Seq<UnpluggedTime>, ws: i64, cursor: int, n: int)
    requires
        windows_wf(windows),
        0 <= n <= windows.len(),
        valid_instant(cursor),
    ensures
        cursor <= skip_windows(windows, ws, cursor, n) < day_start(cursor) + 1440,
        valid_instant(skip_windows(windows, ws, cursor, n)),
    decreases n,
{
    if n > 0 {
        lemma_skip_windows(windows, ws, cursor, n - 1);
        assert(windows[n - 1].wf());
    }
}

/// Block `b` laid from `start` to `end`.
pub open spec fn relaid(b: TimeBlock, start: i64, end: i64) -> TimeBlock {
    TimeBlock { start_time: start, end_time: end, ..b }
}

/// The blocks after the ids from position `k` on have been laid out from
/// `cursor`. An id that names no open block of the workspace in
/// `snapshot` is passed over. Each other id takes the length its block
/// had in `snapshot`: the cursor makes one pass over the windows, the
/// block is laid from the cursor, and the cursor moves to the block's new
/// end. `None` when a block would end outside the stored range.
pub open spec fn reorder_from(
    blocks: Seq<TimeBlock>,
    snapshot: Seq<TimeBlock>,
    windows: Seq<UnpluggedTime>,
    ws: i64,
    ids: Seq<i64>,
    k: int,
    cursor: int,
) -> Option<Seq<TimeBlock>>
    decreases ids.len() - k,
{
    if k < 0 || k >= ids.len() {
        Some(blocks)
    } else {
        let p = open_position(snapshot, ws, ids[k], 0);
        if p >= snapshot.len() {
            reorder_from(blocks, snapshot, windows, ws, ids, k + 1, cursor)
        } else {
            let start = skip_windows(windows, ws, cursor, windows.len() as int);
            let end = start + snapshot[p].duration();
            if valid_instant(end) {
                reorder_from(
                    blocks.update(p, relaid(blocks[p], start as i64, end as i64)),
                    snapshot,
                    windows,
                    ws,
                    ids,
                    k + 1,
                    end,
                )
            } else {
                None
            }
        }
    }
}

/// The tables after the open blocks of workspace `ws` have been laid out
/// in the order of `ids`, starting where the earliest open block of the
/// workspace starts. Nothing changes when the workspace has no open
/// block. A block is not split around a window that starts inside it.
pub open spec fn reorder_spec(t: Tables, ws: i64, ids: Seq<i64>) -> Result<Tables, ErrorKind> {
    match earliest_open_start(t.time_blocks, ws) {
        None => Ok(t),
        Some(first) => match reorder_from(
            t.time_blocks,
            t.time_blocks,
            t.unplugged_times,
            ws,
            ids,
            0,
            first as int,
        ) {
            Some(blocks) => Ok(Tables { time_blocks: blocks, ..t }),
            None => Err(ErrorKind::InvalidInput),
        },
    }
}

fn read_earliest_open_start(blocks: &Vec<TimeBlock>, ws: i64) -> (r: Option<i64>)
    ensures
        r == earliest_open_start(blocks@, ws),
{
    let mut best: Option<i64> = None;
    let mut i: usize = 0;
    while i < blocks.len()
        invariant
            i <= blocks.len(),
            best == earliest_open_start(blocks@.take(i as int), ws),
        decreases blocks.len() - i,
    {
        let b = &blocks[i];
        proof {
            assert(blocks@.take(i + 1).drop_last() =~= blocks@.take(i as int));
        }
        if b.workspace_id == ws && !matches!(b.status, BlockStatus::Done) && !matches!(
            b.status,
            BlockStatus::Unplugged
        ) {
            match best {
                Some(s) => {
                    if b.start_time < s {
                        best = Some(b.start_time);
                    }
                },
                None => {
                    best = Some(b.start_time);
                },
            }
        }
        i = i + 1;
    }
    assert(blocks@.take(i as int) =~= blocks@);
    best
}

fn find_open(blocks: &Vec<TimeBlock>, ws: i64, id: i64) -> (r: Option<usize>)
    ensures
        match r {
            Some(p) => p < blocks.len() && p == open_position(blocks@, ws, id, 0),
            None => open_position(blocks@, ws, id, 0) == blocks.len(),
        },
{
    let mut i: usize = 0;
    while i < blocks.len()
        invariant
            i <= blocks.len(),
            open_position(blocks@, ws, id, 0) == open_position(blocks@, ws, id, i as int),
        decreases blocks.len() - i,
    {
        let b = &blocks[i];
        if b.workspace_id == ws && !matches!(b.status, BlockStatus::Done) && !matches!(
            b.status,
            BlockStatus::Unplugged
        ) && b.id == id {
            return Some(i);
        }
        i = i + 1;
    }
    None
}

fn pass_windows(windows: &Vec<UnpluggedTime>, ws: i64, cursor: i64) -> (c: i64)
    requires
        windows_wf(windows@),
        valid_instant(cursor as int),
    ensures
        c == skip_windows(windows@, ws, cursor as int, windows.len() as int),
        valid_instant(c as int),
{
    let mut c: i64 = cursor;
    let mut n: usize = 0;
    while n < windows.len()
        invariant
            n <= windows.len(),
            windows_wf(windows@),
            valid_instant(cursor as int),
            valid_instant(c as int),
            c == skip_windows(windows@, ws, cursor as int, n as int),
        decreases windows.len() - n,
    {
        let w = &windows[n];
        assert(windows@[n as int].wf());
        let base = instant_day_start(c);
        if w.workspace_id == ws && base + w.start_time <= c && c < base + w.end_time {
            c = base + w.end_time;
        }
        n = n + 1;
    }
    c
}

/// Lays the open blocks of workspace `ws` out in the order of `ids`, as
/// `reorder_spec` says. Fails with an invalid-input error, and changes
/// nothing, when a block would end outside the stored range.
pub fn reorder_blocks(repo: &mut Repository, ws: i64, ids: Vec<i64>) -> (r: Result<(), AppError>)
    requires
        old(repo).wf(),
    ensures
        final(repo).wf(),
        match reorder_spec(old(repo)@, ws, ids@) {
            Ok(after) => r is Ok && final(repo)@ == after,
            Err(k) => r matches Err(e) && e.spec_kind() == k && *final(repo) == *old(repo),
        },
{
    proof {
        lemma_earliest_open_start(repo@.time_blocks, ws);
    }
    let first = match read_earliest_open_start(&repo.time_blocks, ws) {
        Some(first) => first,
        None => {
            return Ok(());
        },
    };
    let mut work = copy_blocks(&repo.time_blocks);
    let mut cursor: i64 = first;
    let mut k: usize = 0;
    while k < ids.len()
        invariant
            k <= ids.len(),
            repo.wf(),
            *repo == *old(repo),
            valid_instant(cursor as int),
            earliest_open_start(repo@.time_blocks, ws) == Some(first),
            work.len() == repo.time_blocks.len(),
            forall|j: int|
                0 <= j < work.len() ==> (#[trigger] work[j]).id == repo.time_blocks[j].id
                    && work[j].wf(),
            reorder_from(
                repo@.time_blocks,
                repo@.time_blocks,
                repo@.unplugged_times,
                ws,
                ids@,
                0,
                first as int,
            ) == reorder_from(
                work@,
                repo@.time_blocks,
                repo@.unplugged_times,
                ws,
                ids@,
                k as int,
                cursor as int,
            ),
        decreases ids.len() - k,
    {
        match find_open(&repo.time_blocks, ws, ids[k]) {
            None => {},
            Some(p) => {
                assert(repo@.time_blocks[p as int].wf());
                let length: i64 = repo.time_blocks[p].end_time - repo.time_blocks[p].start_time;
                let start = pass_windows(&repo.unplugged_times, ws, cursor);
                let end: i64 = start + length;
                if !(1440 <= end && end <= 5_258_966_399) {
                    return Err(invalid_input("a block would end outside the calendar"));
                }
                let ghost before = work@;
                assert(before[p as int].wf());
                work[p].start_time = start;
                work[p].end_time = end;
                assert(work@ =~= before.update(p as int, relaid(before[p as int], start, end)));
                cursor = end;
            },
        }
        k = k + 1;
    }
    proof {
        lemma_same_ids_wf(repo@.time_blocks, work@, repo.next_block_id);
    }
    repo.time_blocks = work;
    Ok(())
}

} // verus!
