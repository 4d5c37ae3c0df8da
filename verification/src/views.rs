//! The read paths: the timeline of a day with its unplugged windows shown
//! as view rows, the inbox, the days that have blocks, and the minutes
//! completed on a day.

use vstd::prelude::*;
use crate::clock::day_of;
use crate::clock::format_date;
use crate::clock::format_date_spec;
use crate::clock::instant_day;
use crate::clock::now_instant;
use crate::clock::valid_instant;
use crate::error::AppError;
use crate::error::ErrorKind;
use crate::error::internal;
use crate::error::invalid_input;
use crate::models::BlockStatus;
use crate::models::Task;
use crate::models::TimeBlock;
use crate::models::UnpluggedTime;
use crate::repository::Repository;
use crate::repository::active_position;
use crate::repository::check_task_has_block;
use crate::reorderer::is_open_in;
use crate::repository::find_active;
use crate::repository::same_task;
use crate::repository::task_has_block;

verus! {

/// Whether a block of workspace `ws` starts on the given day.
pub open spec fn starts_on(b: TimeBlock, ws: i64, day: i64) -> bool {
    b.workspace_id == ws && day_of(b.start_time as int) == day
}

/// The stored blocks of workspace `ws` that start on the given day, in
/// table order.
pub open spec fn day_rows(blocks: Seq<TimeBlock>, ws: i64, day: i64, n: int) -> Seq<TimeBlock>
    decreases n,
{
    if n <= 0 || n > blocks.len() {
        Seq::<TimeBlock>::empty()
    } else {
        let rest = day_rows(blocks, ws, day, n - 1);
        if starts_on(blocks[n - 1], ws, day) {
            rest.push(blocks[n - 1])
        } else {
            rest
        }
    }
}

/// The stretch of a window laid onto the day with the given number.
pub open spec fn window_on_day_spec(w: UnpluggedTime, day: i64) -> (i64, i64) {
    ((day * 1440 + w.start_time) as i64, (day * 1440 + w.end_time) as i64)
}

/// Lays a window onto a day: gives the instants at which it starts and
/// ends on the day with the given number.
pub fn window_on_day(w: &UnpluggedTime, day: i64) -> (stretch: (i64, i64))
    requires
        w.wf(),
        valid_instant(day * 1440),
    ensures
        stretch == window_on_day_spec(*w, day),
        valid_instant(stretch.0 as int),
        valid_instant(stretch.1 as int),
        stretch.0 < stretch.1,
{
    (day * 1440 + w.start_time, day * 1440 + w.end_time)
}

/// The view row that shows a window on the given day: it has the id -1,
/// no task, the window's label as its title and the status of a view
/// row.
pub open spec fn view_row(w: UnpluggedTime, ws: i64, day: i64) -> TimeBlock {
    TimeBlock {
        id: -1i64,
        task_id: None,
        workspace_id: ws,
        title: w.label,
        start_time: window_on_day_spec(w, day).0,
        end_time: window_on_day_spec(w, day).1,
        status: BlockStatus::Unplugged,
        review_memo: None,
        is_urgent: false,
    }
}

/// The view rows of the windows of workspace `ws` among the first `n`
/// windows, in table order.
pub open spec fn view_rows(windows: Seq<UnpluggedTime>, ws: i64, day: i64, n: int) -> Seq<
    TimeBlock,
>
    decreases n,
{
    if n <= 0 || n > windows.len() {
        Seq::<TimeBlock>::empty()
    } else {
        let rest = view_rows(windows, ws, day, n - 1);
        if windows[n - 1].workspace_id == ws {
            rest.push(view_row(windows[n - 1], ws, day))
        } else {
            rest
        }
    }
}

/// A list of rows in order of start with one more row put in: behind
/// every row that starts no later than it does.
pub open spec fn insert_by_start(sorted: Seq<TimeBlock>, b: TimeBlock) -> Seq<TimeBlock>
    decreases sorted.len(),
{
    if sorted.len() == 0 {
        seq![b]
    } else if sorted.last().start_time <= b.start_time {
        sorted.push(b)
    } else {
        insert_by_start(sorted.drop_last(), b).push(sorted.last())
    }
}

/// The rows in order of start; rows that start together keep the order
/// they had.
pub open spec fn sort_by_start(rows: Seq<TimeBlock>) -> Seq<TimeBlock>
    decreases rows.len(),
{
    if rows.len() == 0 {
        rows
    } else {
        insert_by_start(sort_by_start(rows.drop_last()), rows.last())
    }
}

/// Whether the rows are in order of start.
pub open spec fn ordered_by_start(rows: Seq<TimeBlock>) -> bool {
    forall|i: int, j: int|
        0 <= i < j < rows.len() ==> (#[trigger] rows[i]).start_time <= (
        #[trigger] rows[j]).start_time
}

/// Putting a row into an ordered list keeps the list ordered, makes it
/// one longer and adds just that row to what it holds.
pub proof fn lemma_insert_by_start(sorted: Seq<TimeBlock>, b: TimeBlock)
    requires
        ordered_by_start(sorted),
    ensures
        ordered_by_start(insert_by_start(sorted, b)),
        insert_by_start(sorted, b).len() == sorted.len() + 1,
        insert_by_start(sorted, b).to_multiset() == sorted.to_multiset().insert(b),
    decreases sorted.len(),
{
    broadcast use vstd::seq_lib::group_to_multiset_ensures;

    if sorted.len() == 0 {
        assert(sorted =~= Seq::<TimeBlock>::empty());
        assert(seq![b] =~= Seq::<TimeBlock>::empty().push(b));
    } else if sorted.last().start_time <= b.start_time {
    } else {
        let front = sorted.drop_last();
        assert(ordered_by_start(front)) by {
            assert forall|i: int, j: int| 0 <= i < j < front.len() implies (
            #[trigger] front[i]).start_time <= (#[trigger] front[j]).start_time by {
                assert(sorted[i].start_time <= sorted[j].start_time);
            }
        }
        lemma_insert_by_start(front, b);
        let mid = insert_by_start(front, b);
        let out = mid.push(sorted.last());
        assert forall|i: int, j: int| 0 <= i < j < out.len() implies (#[trigger] out[i]).start_time
            <= (#[trigger] out[j]).start_time by {
            if j < mid.len() {
                assert(mid[i].start_time <= mid[j].start_time);
            } else {
                assert(mid.to_multiset().count(mid[i]) > 0);
                if mid[i] != b {
                    assert(front.to_multiset().count(mid[i]) > 0);
                    assert(front.contains(mid[i]));
                    let k = choose|k: int| 0 <= k < front.len() && front[k] == mid[i];
                    assert(sorted[k].start_time <= sorted[sorted.len() - 1].start_time);
                }
            }
        }
        assert(sorted =~= front.push(sorted.last()));
    }
}

/// Sorting puts the rows in order of start and neither adds nor drops a
/// row.
pub proof fn lemma_sort_by_start(rows: Seq<TimeBlock>)
    ensures
        ordered_by_start(sort_by_start(rows)),
        sort_by_start(rows).len() == rows.len(),
        sort_by_start(rows).to_multiset() == rows.to_multiset(),
    decreases rows.len(),
{
    broadcast use vstd::seq_lib::group_to_multiset_ensures;

    if rows.len() > 0 {
        lemma_sort_by_start(rows.drop_last());
        lemma_insert_by_start(sort_by_start(rows.drop_last()), rows.last());
        assert(rows =~= rows.drop_last().push(rows.last()));
    }
}

/// Putting a row in at the place behind the last row that starts no later
/// is what `insert_by_start` does.
proof fn lemma_insert_position(sorted: Seq<TimeBlock>, b: TimeBlock, p: int)
    requires
        0 <= p <= sorted.len(),
        forall|k: int| p <= k < sorted.len() ==> (#[trigger] sorted[k]).start_time > b.start_time,
        p > 0 ==> sorted[p - 1].start_time <= b.start_time,
    ensures
        insert_by_start(sorted, b) == sorted.insert(p, b),
    decreases sorted.len() - p,
{
    if sorted.len() == 0 {
        assert(seq![b] =~= sorted.insert(p, b));
    } else if p == sorted.len() {
        assert(sorted.push(b) =~= sorted.insert(p, b));
    } else {
        assert(sorted[sorted.len() - 1].start_time > b.start_time);
        let front = sorted.drop_last();
        assert forall|k: int| p <= k < front.len() implies (#[trigger] front[k]).start_time
            > b.start_time by {
            assert(sorted[k].start_time > b.start_time);
        }
        lemma_insert_position(front, b, p);
        assert(front.insert(p, b).push(sorted.last()) =~= sorted.insert(p, b));
    }
}

/// Puts a row into rows that are in order of start.
fn insert_row(rows: &mut Vec<TimeBlock>, b: TimeBlock)
    ensures
        final(rows)@ == insert_by_start(old(rows)@, b),
{
    let mut p: usize = rows.len();
    while p > 0 && rows[p - 1].start_time > b.start_time
        invariant
            p <= rows.len(),
            *rows == *old(rows),
            forall|k: int| p <= k < rows.len() ==> (#[trigger] rows[k]).start_time > b.start_time,
        decreases p,
    {
        p = p - 1;
    }
    proof {
        lemma_insert_position(rows@, b, p as int);
    }
    rows.insert(p, b);
}

/// What the timeline of a day shows: the stored blocks of the workspace
/// that start on the day and a view row for each unplugged window of the
/// workspace, all in order of start.
pub open spec fn timeline_spec(
    blocks: Seq<TimeBlock>,
    windows: Seq<UnpluggedTime>,
    ws: i64,
    day: i64,
) -> Seq<TimeBlock> {
    sort_by_start(
        day_rows(blocks, ws, day, blocks.len() as int) + view_rows(
            windows,
            ws,
            day,
            windows.len() as int,
        ),
    )
}

/// Reads the timeline of workspace `ws` for the day with the given
/// number. Fails with an invalid-input error when the day lies outside
/// the stored range.
pub fn get_timeline(repo: &Repository, ws: i64, day: i64) -> (r: Result<Vec<TimeBlock>, AppError>)
    requires
        repo.wf(),
    ensures
        match r {
            Ok(rows) => valid_instant(day * 1440) && rows@ == timeline_spec(
                repo@.time_blocks,
                repo@.unplugged_times,
                ws,
                day,
            ),
            Err(e) => !valid_instant(day * 1440) && e.spec_kind() == ErrorKind::InvalidInput,
        },
        r matches Ok(rows) ==> ordered_by_start(rows@),
{
    if day < 1 || day > 3_652_059 {
        return Err(invalid_input("the day lies outside the calendar"));
    }
    let mut rows: Vec<TimeBlock> = Vec::new();
    let ghost mut unsorted = Seq::<TimeBlock>::empty();
    let mut i: usize = 0;
    while i < repo.time_blocks.len()
        invariant
            i <= repo.time_blocks.len(),
            repo.wf(),
            unsorted == day_rows(repo@.time_blocks, ws, day, i as int),
            rows@ == sort_by_start(unsorted),
        decreases repo.time_blocks.len() - i,
    {
        let b = &repo.time_blocks[i];
        if b.workspace_id == ws && instant_day(b.start_time) == day {
            proof {
                let next = unsorted.push(*b);
                assert(next.drop_last() =~= unsorted);
                unsorted = next;
            }
            insert_row(&mut rows, b.duplicate());
        }
        i = i + 1;
    }
    let ghost stored = unsorted;
    let mut n: usize = 0;
    while n < repo.unplugged_times.len()
        invariant
            n <= repo.unplugged_times.len(),
            repo.wf(),
            1 <= day <= 3_652_059,
            stored == day_rows(repo@.time_blocks, ws, day, repo@.time_blocks.len() as int),
            unsorted == stored + view_rows(repo@.unplugged_times, ws, day, n as int),
            rows@ == sort_by_start(unsorted),
        decreases repo.unplugged_times.len() - n,
    {
        let w = &repo.unplugged_times[n];
        assert(repo@.unplugged_times[n as int].wf());
        if w.workspace_id == ws {
            let stretch = window_on_day(w, day);
            let row = TimeBlock {
                id: -1,
                task_id: None,
                workspace_id: ws,
                title: w.label.clone(),
                start_time: stretch.0,
                end_time: stretch.1,
                status: BlockStatus::Unplugged,
                review_memo: None,
                is_urgent: false,
            };
            proof {
                let next = unsorted.push(row);
                assert(next.drop_last() =~= unsorted);
                assert(next =~= stored + view_rows(repo@.unplugged_times, ws, day, n + 1));
                unsorted = next;
            }
            insert_row(&mut rows, row);
        } else {
            assert(unsorted =~= stored + view_rows(repo@.unplugged_times, ws, day, n + 1));
        }
        n = n + 1;
    }
    proof {
        lemma_sort_by_start(unsorted);
    }
    Ok(rows)
}

/// The stored blocks among the first `n` that belong to the task, in
/// table order.
pub open spec fn task_rows(blocks: Seq<TimeBlock>, task_id: i64, n: int) -> Seq<TimeBlock>
    decreases n,
{
    if n <= 0 || n > blocks.len() {
        Seq::<TimeBlock>::empty()
    } else {
        let rest = task_rows(blocks, task_id, n - 1);
        if blocks[n - 1].task_id == Some(task_id) {
            rest.push(blocks[n - 1])
        } else {
            rest
        }
    }
}

/// Reads all blocks that belong to a task, in table order.
pub fn get_task_blocks(repo: &Repository, task_id: i64) -> (rows: Vec<TimeBlock>)
    ensures
        rows@ == task_rows(repo@.time_blocks, task_id, repo@.time_blocks.len() as int),
{
    let mut rows: Vec<TimeBlock> = Vec::new();
    let mut i: usize = 0;
    while i < repo.time_blocks.len()
        invariant
            i <= repo.time_blocks.len(),
            rows@ == task_rows(repo@.time_blocks, task_id, i as int),
        decreases repo.time_blocks.len() - i,
    {
        if same_task(&repo.time_blocks[i].task_id, &Some(task_id)) {
            rows.push(repo.time_blocks[i].duplicate());
        }
        i = i + 1;
    }
    rows
}

/// Whether `id` is the greatest id among the blocks of the task.
pub open spec fn is_last_block_id(blocks: Seq<TimeBlock>, task_id: i64, id: i64) -> bool {
    &&& exists|i: int|
        0 <= i < blocks.len() && (#[trigger] blocks[i]).task_id == Some(task_id) && blocks[i].id
            == id
    &&& forall|i: int|
        0 <= i < blocks.len() && (#[trigger] blocks[i]).task_id == Some(task_id) ==> blocks[i].id
            <= id
}

/// Reads the greatest id among the blocks of a task: the id of the only
/// block of the task that can be transitioned. `None` when the task has
/// no block.
pub fn get_last_block_id(repo: &Repository, task_id: i64) -> (r: Option<i64>)
    ensures
        match r {
            Some(id) => is_last_block_id(repo@.time_blocks, task_id, id),
            None => !task_has_block(repo@.time_blocks, task_id),
        },
{
    let mut best: Option<i64> = None;
    let mut i: usize = 0;
    while i < repo.time_blocks.len()
        invariant
            i <= repo.time_blocks.len(),
            match best {
                Some(id) => is_last_block_id(repo@.time_blocks.take(i as int), task_id, id),
                None => !task_has_block(repo@.time_blocks.take(i as int), task_id),
            },
        decreases repo.time_blocks.len() - i,
    {
        let ghost prefix = repo@.time_blocks.take(i as int);
        let ghost longer = repo@.time_blocks.take(i + 1);
        assert forall|k: int| 0 <= k < prefix.len() implies prefix[k] == longer[k] by {}
        let b = &repo.time_blocks[i];
        assert(longer[i as int] == *b);
        if same_task(&b.task_id, &Some(task_id)) {
            match best {
                Some(id) => {
                    let ghost w = choose|k: int|
                        0 <= k < prefix.len() && (#[trigger] prefix[k]).task_id == Some(task_id)
                            && prefix[k].id == id;
                    if b.id > id {
                        best = Some(b.id);
                        assert forall|k: int|
                            0 <= k < longer.len() && (#[trigger] longer[k]).task_id == Some(
                                task_id,
                            ) implies longer[k].id <= b.id by {
                            if k < i {
                                assert(prefix[k].task_id == Some(task_id));
                            }
                        }
                    } else {
                        assert(longer[w].task_id == Some(task_id) && longer[w].id == id);
                        assert forall|k: int|
                            0 <= k < longer.len() && (#[trigger] longer[k]).task_id == Some(
                                task_id,
                            ) implies longer[k].id <= id by {
                            if k < i {
                                assert(prefix[k].task_id == Some(task_id));
                            }
                        }
                    }
                },
                None => {
                    best = Some(b.id);
                    assert forall|k: int|
                        0 <= k < longer.len() && (#[trigger] longer[k]).task_id == Some(
                            task_id,
                        ) implies longer[k].id <= b.id by {
                        if k < i {
                            assert(prefix[k].task_id == Some(task_id));
                        }
                    }
                },
            }
        } else {
            match best {
                Some(id) => {
                    let ghost w = choose|k: int|
                        0 <= k < prefix.len() && (#[trigger] prefix[k]).task_id == Some(task_id)
                            && prefix[k].id == id;
                    assert(longer[w].task_id == Some(task_id) && longer[w].id == id);
                    assert forall|k: int|
                        0 <= k < longer.len() && (#[trigger] longer[k]).task_id == Some(
                            task_id,
                        ) implies longer[k].id <= id by {
                        if k < i {
                            assert(prefix[k].task_id == Some(task_id));
                        }
                    }
                },
                None => {
                    assert forall|k: int| 0 <= k < longer.len() implies (
                    #[trigger] longer[k]).task_id != Some(task_id) by {
                        if k < i {
                            assert(prefix[k].task_id != Some(task_id));
                        }
                    }
                },
            }
        }
        i = i + 1;
    }
    assert(repo@.time_blocks.take(i as int) =~= repo@.time_blocks);
    best
}

/// The blocks among the first `n` that are open in workspace `ws`, in
/// table order.
pub open spec fn open_rows(blocks: Seq<TimeBlock>, ws: i64, n: int) -> Seq<TimeBlock>
    decreases n,
{
    if n <= 0 || n > blocks.len() {
        Seq::<TimeBlock>::empty()
    } else {
        let rest = open_rows(blocks, ws, n - 1);
        if is_open_in(blocks[n - 1], ws) {
            rest.push(blocks[n - 1])
        } else {
            rest
        }
    }
}

/// Reads the blocks of workspace `ws` that are not done, in order of
/// start: the blocks a reorder lays out, in their current order.
pub fn get_open_blocks(repo: &Repository, ws: i64) -> (rows: Vec<TimeBlock>)
    ensures
        rows@ == sort_by_start(open_rows(repo@.time_blocks, ws, repo@.time_blocks.len() as int)),
        ordered_by_start(rows@),
{
    let mut rows: Vec<TimeBlock> = Vec::new();
    let ghost mut unsorted = Seq::<TimeBlock>::empty();
    let mut i: usize = 0;
    while i < repo.time_blocks.len()
        invariant
            i <= repo.time_blocks.len(),
            unsorted == open_rows(repo@.time_blocks, ws, i as int),
            rows@ == sort_by_start(unsorted),
        decreases repo.time_blocks.len() - i,
    {
        let b = &repo.time_blocks[i];
        if b.workspace_id == ws && !matches!(b.status, BlockStatus::Done) && !matches!(
            b.status,
            BlockStatus::Unplugged
        ) {
            proof {
                let next = unsorted.push(*b);
                assert(next.drop_last() =~= unsorted);
                unsorted = next;
            }
            insert_row(&mut rows, b.duplicate());
        }
        i = i + 1;
    }
    proof {
        lemma_sort_by_start(unsorted);
    }
    rows
}

/// The tasks among the first `n` that are in the inbox of workspace `ws`:
/// those of the workspace to which no block belongs.
pub open spec fn inbox_rows(tasks: Seq<Task>, blocks: Seq<TimeBlock>, ws: i64, n: int) -> Seq<Task>
    decreases n,
{
    if n <= 0 || n > tasks.len() {
        Seq::<Task>::empty()
    } else {
        let rest = inbox_rows(tasks, blocks, ws, n - 1);
        if tasks[n - 1].workspace_id == ws && !task_has_block(blocks, tasks[n - 1].id) {
            rest.push(tasks[n - 1])
        } else {
            rest
        }
    }
}

/// Reads the inbox of workspace `ws`: its tasks without a block, in table
/// order.
pub fn get_inbox(repo: &Repository, ws: i64) -> (tasks: Vec<Task>)
    ensures
        tasks@ == inbox_rows(repo@.tasks, repo@.time_blocks, ws, repo@.tasks.len() as int),
{
    let mut out: Vec<Task> = Vec::new();
    let mut i: usize = 0;
    while i < repo.tasks.len()
        invariant
            i <= repo.tasks.len(),
            out@ == inbox_rows(repo@.tasks, repo@.time_blocks, ws, i as int),
        decreases repo.tasks.len() - i,
    {
        let task = &repo.tasks[i];
        if task.workspace_id == ws && !check_task_has_block(&repo.time_blocks, task.id) {
            out.push(task.duplicate());
        }
        i = i + 1;
    }
    out
}

/// Whether a block of workspace `ws` is being worked on.
pub fn check_active_block_exists(repo: &Repository, ws: i64) -> (exists_active: bool)
    ensures
        exists_active == (active_position(repo@.time_blocks, ws, 0) < repo@.time_blocks.len()),
{
    find_active(&repo.time_blocks, ws).is_some()
}

/// Whether some block of workspace `ws` starts on the given day.
pub open spec fn day_is_active(blocks: Seq<TimeBlock>, ws: i64, day: i64) -> bool {
    exists|i: int| 0 <= i < blocks.len() && starts_on(#[trigger] blocks[i], ws, day)
}

/// Whether `days` lists the days on which blocks of workspace `ws` start:
/// each such day once, in order.
pub open spec fn lists_active_days(blocks: Seq<TimeBlock>, ws: i64, days: Seq<i64>) -> bool {
    &&& forall|a: int, b: int| 0 <= a < b < days.len() ==> days[a] < days[b]
    &&& forall|a: int| 0 <= a < days.len() ==> day_is_active(blocks, ws, #[trigger] days[a])
    &&& forall|i: int|
        0 <= i < blocks.len() && (#[trigger] blocks[i]).workspace_id == ws ==> days.contains(
            day_of(blocks[i].start_time as int) as i64,
        )
}

/// Reads the days on which blocks of workspace `ws` start, each once and
/// in order.
pub fn get_active_days(repo: &Repository, ws: i64) -> (days: Vec<i64>)
    requires
        repo.wf(),
    ensures
        lists_active_days(repo@.time_blocks, ws, days@),
{
    let mut days: Vec<i64> = Vec::new();
    let mut i: usize = 0;
    while i < repo.time_blocks.len()
        invariant
            i <= repo.time_blocks.len(),
            repo.wf(),
            lists_active_days(repo@.time_blocks.take(i as int), ws, days@),
        decreases repo.time_blocks.len() - i,
    {
        let b = &repo.time_blocks[i];
        let ghost prefix = repo@.time_blocks.take(i as int);
        let ghost longer = repo@.time_blocks.take(i + 1);
        let ghost before = days@;
        assert(longer[i as int] == *b);
        assert forall|k: int| 0 <= k < prefix.len() implies prefix[k] == longer[k] by {}
        if b.workspace_id == ws {
            let day = instant_day(b.start_time);
            let mut p: usize = 0;
            while p < days.len() && days[p] < day
                invariant
                    p <= days.len(),
                    days@ == before,
                    forall|a: int, c: int| 0 <= a < c < days.len() ==> days[a] < days[c],
                    forall|a: int| 0 <= a < p ==> days[a] < day,
                decreases days.len() - p,
            {
                p = p + 1;
            }
            if p < days.len() && days[p] == day {
                assert(days@.contains(day));
                assert forall|a: int| 0 <= a < days.len() implies day_is_active(
                    longer,
                    ws,
                    #[trigger] days[a],
                ) by {
                    let k = choose|k: int|
                        0 <= k < prefix.len() && starts_on(#[trigger] prefix[k], ws, before[a]);
                    assert(starts_on(longer[k], ws, days[a]));
                }
                assert forall|k: int|
                    0 <= k < longer.len() && (#[trigger] longer[k]).workspace_id
                        == ws implies days@.contains(
                    day_of(longer[k].start_time as int) as i64,
                ) by {
                    if k < i {
                        assert(prefix[k].workspace_id == ws);
                    }
                }
            } else {
                days.insert(p, day);
                assert forall|a: int, c: int| 0 <= a < c < days.len() implies days[a]
                    < days[c] by {
                    let a0 = if a < p {
                        a
                    } else {
                        a - 1
                    };
                    let c0 = if c < p {
                        c
                    } else {
                        c - 1
                    };
                    if a != p && c != p {
                        assert(before[a0] < before[c0]);
                    } else if a == p {
                        assert(before[c0] >= day);
                        if c0 > p {
                            assert(before[p as int] < before[c0]);
                        }
                    }
                }
                assert forall|a: int| 0 <= a < days.len() implies day_is_active(
                    longer,
                    ws,
                    #[trigger] days[a],
                ) by {
                    if a == p {
                        assert(starts_on(longer[i as int], ws, days[a]));
                    } else {
                        let a0 = if a < p {
                            a
                        } else {
                            a - 1
                        };
                        let k = choose|k: int|
                            0 <= k < prefix.len() && starts_on(
                                #[trigger] prefix[k],
                                ws,
                                before[a0],
                            );
                        assert(starts_on(longer[k], ws, days[a]));
                    }
                }
                assert forall|k: int|
                    0 <= k < longer.len() && (#[trigger] longer[k]).workspace_id
                        == ws implies days@.contains(
                    day_of(longer[k].start_time as int) as i64,
                ) by {
                    if k < i {
                        assert(prefix[k].workspace_id == ws);
                        let d = day_of(prefix[k].start_time as int) as i64;
                        let a0 = choose|a0: int| 0 <= a0 < before.len() && before[a0] == d;
                        let a = if a0 < p {
                            a0
                        } else {
                            a0 + 1
                        };
                        assert(days@[a] == d);
                    } else {
                        assert(days@[p as int] == day);
                    }
                }
            }
        } else {
            assert forall|a: int| 0 <= a < days.len() implies day_is_active(
                    longer,
                    ws,
                    #[trigger] days[a],
                ) by {
                let k = choose|k: int|
                    0 <= k < prefix.len() && starts_on(#[trigger] prefix[k], ws, before[a]);
                assert(starts_on(longer[k], ws, days[a]));
            }
            assert forall|k: int|
                0 <= k < longer.len() && (#[trigger] longer[k]).workspace_id
                    == ws implies days@.contains(day_of(longer[k].start_time as int) as i64) by {
                if k < i {
                    assert(prefix[k].workspace_id == ws);
                }
            }
        }
        i = i + 1;
    }
    assert(repo@.time_blocks.take(i as int) =~= repo@.time_blocks);
    days
}

/// Reads the days on which blocks of workspace `ws` start, each once and
/// in order, written as `YYYY-MM-DD`. Fails with an internal error when
/// chrono cannot write one of the days.
pub fn get_active_dates(repo: &Repository, ws: i64) -> (r: Result<Vec<String>, AppError>)
    requires
        repo.wf(),
    ensures
        match r {
            Ok(dates) => exists|days: Seq<i64>|
                {
                    &&& lists_active_days(repo@.time_blocks, ws, days)
                    &&& dates@.len() == days.len()
                    &&& forall|k: int|
                        0 <= k < days.len() ==> format_date_spec(days[k] as int) == Some(
                            (#[trigger] dates@[k])@,
                        )
                },
            Err(e) => e.spec_kind() == ErrorKind::Internal && exists|days: Seq<i64>, k: int|
                {
                    &&& lists_active_days(repo@.time_blocks, ws, days)
                    &&& 0 <= k < days.len()
                    &&& format_date_spec(days[k] as int) is None
                },
        },
{
    let days = get_active_days(repo, ws);
    let mut dates: Vec<String> = Vec::new();
    let mut k: usize = 0;
    while k < days.len()
        invariant
            k <= days.len(),
            dates@.len() == k,
            lists_active_days(repo@.time_blocks, ws, days@),
            forall|j: int|
                0 <= j < k ==> format_date_spec(days@[j] as int) == Some((#[trigger] dates@[j])@),
        decreases days.len() - k,
    {
        match format_date(days[k]) {
            Some(text) => {
                dates.push(text);
            },
            None => {
                return Err(internal("a day cannot be written"));
            },
        }
        k = k + 1;
    }
    Ok(dates)
}

/// Whether a block counts for the minutes completed in workspace `ws` on
/// the given day: it is done or frozen and starts on the day.
pub open spec fn counts_as_completed(b: TimeBlock, ws: i64, day: i64) -> bool {
    starts_on(b, ws, day) && (b.status == BlockStatus::Done || b.status == BlockStatus::Pending)
}

/// The minutes of the blocks that count as completed in workspace `ws`
/// on the given day.
pub open spec fn completed_minutes(blocks: Seq<TimeBlock>, ws: i64, day: i64) -> int
    decreases blocks.len(),
{
    if blocks.len() == 0 {
        0
    } else {
        completed_minutes(blocks.drop_last(), ws, day) + if counts_as_completed(
            blocks.last(),
            ws,
            day,
        ) {
            blocks.last().duration()
        } else {
            0
        }
    }
}

/// Sums the minutes completed in workspace `ws` on the day with the given
/// number. Fails with an internal error when the sum does not fit 64
/// bits.
pub fn get_completed_duration(repo: &Repository, ws: i64, day: i64) -> (r: Result<i64, AppError>)
    requires
        repo.wf(),
    ensures
        match r {
            Ok(minutes) => minutes == completed_minutes(repo@.time_blocks, ws, day),
            Err(e) => e.spec_kind() == ErrorKind::Internal && !(i64::MIN <= completed_minutes(
                repo@.time_blocks,
                ws,
                day,
            ) <= i64::MAX),
        },
{
    let mut sum: i128 = 0;
    let mut i: usize = 0;
    while i < repo.time_blocks.len()
        invariant
            i <= repo.time_blocks.len(),
            repo.wf(),
            sum == completed_minutes(repo@.time_blocks.take(i as int), ws, day),
            -6_000_000_000 * i <= sum <= 6_000_000_000 * i,
        decreases repo.time_blocks.len() - i,
    {
        let b = &repo.time_blocks[i];
        proof {
            assert(repo@.time_blocks.take(i + 1).drop_last() =~= repo@.time_blocks.take(i as int));
            assert(repo@.time_blocks[i as int].wf());
        }
        if b.workspace_id == ws && instant_day(b.start_time) == day && (matches!(
            b.status,
            BlockStatus::Done
        ) || matches!(b.status, BlockStatus::Pending)) {
            sum = sum + ((b.end_time - b.start_time) as i128);
        }
        i = i + 1;
    }
    assert(repo@.time_blocks.take(i as int) =~= repo@.time_blocks);
    if sum < -9_223_372_036_854_775_808 || sum > 9_223_372_036_854_775_807 {
        Err(internal("the sum of minutes is too large"))
    } else {
        Ok(sum as i64)
    }
}

/// Sums the minutes completed in workspace `ws` on the day the local
/// clock shows. Fails with an internal error when the clock shows a time
/// outside the stored range or the sum does not fit 64 bits.
pub fn get_today_completed_duration(repo: &Repository, ws: i64) -> (r: Result<i64, AppError>)
    requires
        repo.wf(),
    ensures
        r matches Ok(minutes) ==> exists|day: i64|
            minutes == completed_minutes(repo@.time_blocks, ws, day),
        r matches Err(e) ==> e.spec_kind() == ErrorKind::Internal,
{
    match now_instant() {
        Some(now) => get_completed_duration(repo, ws, instant_day(now)),
        None => Err(internal("the clock shows a time outside the calendar")),
    }
}

} // verus!
