//! Laws that relate commands to each other.

use vstd::prelude::*;
use crate::clock::day_start;
use crate::clock::valid_instant;
use crate::models::AddTaskInput;
use crate::models::TaskTransitionInput;
use crate::models::TimeBlock;
use crate::models::TransitionAction;
use crate::models::UnpluggedTime;
use crate::placer::lemma_placement;
use crate::placer::place_spec;
use crate::placer::total_minutes;
use crate::placer::windows_wf;
use crate::reorderer::earliest_open_start;
use crate::reorderer::is_open_in;
use crate::reorderer::lemma_earliest_open_start;
use crate::reorderer::lemma_open_position;
use crate::reorderer::lemma_skip_windows;
use crate::reorderer::open_position;
use crate::reorderer::relaid;
use crate::reorderer::reorder_from;
use crate::reorderer::reorder_spec;
use crate::reorderer::skip_windows;
use crate::repository::Tables;
use crate::repository::active_position;
use crate::repository::block_position;
use crate::repository::lemma_active_position;
use crate::repository::lemma_block_position;
use crate::scheduler::add_task_at_spec;
use crate::scheduler::blocks_for;
use crate::scheduler::placed_end;
use crate::scheduler::requested_minutes;
use crate::scheduler::requested_task;
use crate::scheduler::schedule_spec;
use crate::scheduler::truncated;
use crate::shifter::is_shifted;
use crate::shifter::shift_blocks;
use crate::shifter::shift_one;
use crate::transitioner::completed;
use crate::transitioner::done_if_of;
use crate::transitioner::extra_of;
use crate::transitioner::mark_done;
use crate::transitioner::process_transition_spec;

verus! {

/// A delay by a number of minutes that is not negative, followed by a
/// completion at the instant at which the block was planned to end
/// before the delay, leaves every block where it was before the delay.
/// This holds of a block that is planned to end after it starts.
pub proof fn lemma_delay_then_complete_restores(
    t: Tables,
    delay: TaskTransitionInput,
    at_delay: i64,
    complete: TaskTransitionInput,
)
    requires
        t.wf(),
        TransitionAction::parse_spec(delay.action@) == Some(TransitionAction::Delay),
        TransitionAction::parse_spec(complete.action@) == Some(TransitionAction::CompleteNow),
        complete.block_id == delay.block_id,
        extra_of(delay) >= 0,
        process_transition_spec(t, delay, at_delay) is Ok,
        t.time_blocks[block_position(t.time_blocks, delay.block_id, 0)].start_time
            < t.time_blocks[block_position(t.time_blocks, delay.block_id, 0)].end_time,
        process_transition_spec(
            process_transition_spec(t, delay, at_delay)->Ok_0,
            complete,
            t.time_blocks[block_position(t.time_blocks, delay.block_id, 0)].end_time,
        ) is Ok,
    ensures
        ({
            let planned_end = t.time_blocks[block_position(
                t.time_blocks,
                delay.block_id,
                0,
            )].end_time;
            let after = process_transition_spec(
                process_transition_spec(t, delay, at_delay)->Ok_0,
                complete,
                planned_end,
            )->Ok_0;
            &&& after.time_blocks.len() == t.time_blocks.len()
            &&& forall|j: int|
                0 <= j < t.time_blocks.len() ==> (#[trigger] after.time_blocks[j]).start_time
                    == t.time_blocks[j].start_time && after.time_blocks[j].end_time
                    == t.time_blocks[j].end_time
        }),
{
    let before = t.time_blocks;
    let p = block_position(before, delay.block_id, 0);
    lemma_block_position(before, delay.block_id, 0);
    let b = before[p];
    let e = b.end_time;
    let k = extra_of(delay);
    let ws = b.workspace_id;
    let mid = process_transition_spec(t, delay, at_delay)->Ok_0;
    let stretched = before.update(p, TimeBlock { end_time: (e + k) as i64, ..b });
    assert(mid.time_blocks == shift_blocks(stretched, ws, e, k as int));
    assert forall|j: int| 0 <= j < before.len() implies (#[trigger] mid.time_blocks[j]).id
        == before[j].id && mid.time_blocks[j] == shift_one(stretched[j], ws, e, k as int) by {}
    assert forall|j: int| 0 <= j < p implies (#[trigger] mid.time_blocks[j]).id != delay.block_id by {
        assert(before[j].id != delay.block_id);
    }
    lemma_position_of_id(mid.time_blocks, delay.block_id, p);
    let after = process_transition_spec(mid, complete, e)->Ok_0;
    let m = mid.time_blocks[p];
    assert(m.end_time == e + k);
    let back = shift_blocks(mid.time_blocks, ws, m.end_time, e - m.end_time);
    let done = back.map_values(mark_done(m.task_id));
    assert(after.time_blocks == done.update(p, completed(done[p], e, complete.review_memo)));
    assert forall|j: int| 0 <= j < before.len() implies (#[trigger] after.time_blocks[j]).start_time
        == before[j].start_time && after.time_blocks[j].end_time == before[j].end_time by {
        assert(before[j].wf());
        assert(mid.time_blocks[j] == shift_one(stretched[j], ws, e, k as int));
        assert(back[j] == shift_one(mid.time_blocks[j], ws, m.end_time, e - m.end_time));
        assert(done[j] == done_if_of(back[j], m.task_id));
    }
}

/// The block with the given id stands at position `p` when it stands
/// there and no block before it has the id.
pub proof fn lemma_position_of_id(blocks: Seq<TimeBlock>, id: i64, p: int)
    requires
        0 <= p < blocks.len(),
        blocks[p].id == id,
        forall|j: int| 0 <= j < p ==> (#[trigger] blocks[j]).id != id,
    ensures
        block_position(blocks, id, 0) == p,
{
    lemma_position_from(blocks, id, p, 0);
}

proof fn lemma_position_from(blocks: Seq<TimeBlock>, id: i64, p: int, from: int)
    requires
        0 <= from <= p < blocks.len(),
        blocks[p].id == id,
        forall|j: int| 0 <= j < p ==> (#[trigger] blocks[j]).id != id,
    ensures
        block_position(blocks, id, from) == p,
    decreases p - from,
{
    if from < p {
        assert(blocks[from].id != id);
        lemma_position_from(blocks, id, p, from + 1);
    }
}

/// The minutes of the blocks that belong to the given task.
pub open spec fn minutes_of_task(blocks: Seq<TimeBlock>, task_id: Option<i64>) -> int
    decreases blocks.len(),
{
    if blocks.len() == 0 {
        0
    } else {
        minutes_of_task(blocks.drop_last(), task_id) + if blocks.last().task_id == task_id {
            blocks.last().duration()
        } else {
            0
        }
    }
}

/// The minutes of a task in two lists put together are the minutes in
/// each.
pub proof fn lemma_minutes_of_joined(a: Seq<TimeBlock>, b: Seq<TimeBlock>, task_id: Option<i64>)
    ensures
        minutes_of_task(a + b, task_id) == minutes_of_task(a, task_id) + minutes_of_task(
            b,
            task_id,
        ),
    decreases b.len(),
{
    if b.len() == 0 {
        assert(a + b =~= a);
    } else {
        assert((a + b).drop_last() =~= a + b.drop_last());
        lemma_minutes_of_joined(a, b.drop_last(), task_id);
    }
}

/// Lists whose blocks agree in task and length hold the same minutes of
/// a task.
pub proof fn lemma_minutes_of_alike(a: Seq<TimeBlock>, b: Seq<TimeBlock>, task_id: Option<i64>)
    requires
        a.len() == b.len(),
        forall|i: int|
            0 <= i < a.len() ==> (#[trigger] a[i]).task_id == b[i].task_id && a[i].duration()
                == b[i].duration(),
    ensures
        minutes_of_task(a, task_id) == minutes_of_task(b, task_id),
    decreases a.len(),
{
    if a.len() > 0 {
        let fa = a.drop_last();
        let fb = b.drop_last();
        assert forall|i: int| 0 <= i < fa.len() implies (#[trigger] fa[i]).task_id == fb[i].task_id
            && fa[i].duration() == fb[i].duration() by {
            assert(fa[i] == a[i]);
            assert(fb[i] == b[i]);
        }
        lemma_minutes_of_alike(fa, fb, task_id);
        assert(a[a.len() - 1].task_id == b[b.len() - 1].task_id);
    }
}

/// Changing the length of one block of a task changes the minutes of the
/// task by as much.
pub proof fn lemma_minutes_of_updated(
    a: Seq<TimeBlock>,
    p: int,
    changed: TimeBlock,
    task_id: Option<i64>,
)
    requires
        0 <= p < a.len(),
        changed.task_id == a[p].task_id,
    ensures
        minutes_of_task(a.update(p, changed), task_id) == minutes_of_task(a, task_id) + if a[p].task_id
            == task_id {
            changed.duration() - a[p].duration()
        } else {
            0
        },
    decreases a.len(),
{
    let u = a.update(p, changed);
    if p == a.len() - 1 {
        assert(u.drop_last() =~= a.drop_last());
    } else {
        assert(u.drop_last() =~= a.drop_last().update(p, changed));
        lemma_minutes_of_updated(a.drop_last(), p, changed, task_id);
    }
}

/// The blocks placed for a task hold the minutes of its stretches, and
/// no minutes of another task.
pub proof fn lemma_minutes_of_placed(
    stretches: Seq<(i64, i64)>,
    first_id: i64,
    ws: i64,
    owner: i64,
    title: String,
    urgent: bool,
    task_id: Option<i64>,
)
    ensures
        minutes_of_task(blocks_for(stretches, first_id, ws, owner, title, urgent), task_id) == if task_id
            == Some(owner) {
            total_minutes(stretches)
        } else {
            0
        },
    decreases stretches.len(),
{
    let placed = blocks_for(stretches, first_id, ws, owner, title, urgent);
    if stretches.len() > 0 {
        let front = stretches.drop_last();
        assert(placed.drop_last() =~= blocks_for(front, first_id, ws, owner, title, urgent));
        lemma_minutes_of_placed(front, first_id, ws, owner, title, urgent, task_id);
        lemma_total_minutes_last(stretches);
    }
}

/// The minutes of a list of stretches are those of all but the last and
/// those of the last.
pub proof fn lemma_total_minutes_last(stretches: Seq<(i64, i64)>)
    requires
        stretches.len() > 0,
    ensures
        total_minutes(stretches) == total_minutes(stretches.drop_last()) + (stretches.last().1
            - stretches.last().0),
    decreases stretches.len(),
{
    if stretches.len() == 1 {
        assert(stretches.drop_first() =~= stretches.drop_last());
        assert(total_minutes(stretches.drop_first()) == 0);
    } else {
        let rest = stretches.drop_first();
        lemma_total_minutes_last(rest);
        assert(rest.drop_last() =~= stretches.drop_last().drop_first());
        assert(stretches.drop_last()[0] == stretches[0]);
    }
}

/// When an urgent task preempts the block that is being worked on, at an
/// instant no later than the block's planned end, the minutes of the
/// block's task stay what they were, and every planned block of the
/// workspace that started at the preempted block's planned end or later
/// is moved by exactly the duration of the urgent task. This holds when
/// the preempted block belongs to a task whose id has been handed out.
pub proof fn lemma_urgent_conservation(t: Tables, input: AddTaskInput, now: i64)
    requires
        t.wf(),
        input.is_urgent,
        add_task_at_spec(t, input, now) is Ok,
        add_task_at_spec(t, input, now)->Ok_0.time_blocks != t.time_blocks,
        active_position(t.time_blocks, input.workspace_id, 0) < t.time_blocks.len(),
        now <= t.time_blocks[active_position(t.time_blocks, input.workspace_id, 0)].end_time,
        t.time_blocks[active_position(t.time_blocks, input.workspace_id, 0)].task_id->0
            < t.next_task_id,
    ensures
        ({
            let preempted = t.time_blocks[active_position(t.time_blocks, input.workspace_id, 0)];
            let after = add_task_at_spec(t, input, now)->Ok_0;
            &&& minutes_of_task(after.time_blocks, preempted.task_id) == minutes_of_task(
                t.time_blocks,
                preempted.task_id,
            )
            &&& after.time_blocks.len() >= t.time_blocks.len()
            &&& forall|j: int|
                0 <= j < t.time_blocks.len() && is_shifted(
                    #[trigger] t.time_blocks[j],
                    input.workspace_id,
                    preempted.end_time,
                ) ==> after.time_blocks[j].start_time == t.time_blocks[j].start_time
                    + requested_minutes(input) && after.time_blocks[j].end_time
                    == t.time_blocks[j].end_time + requested_minutes(input)
        }),
{
    let ws = input.workspace_id;
    let before = t.time_blocks;
    let p = active_position(before, ws, 0);
    lemma_active_position(before, ws, 0);
    let b = before[p];
    assert(b.wf());
    let owner = b.task_id;
    let task = requested_task(input, t.next_task_id);
    let duration = requested_minutes(input);
    let stored = Tables { tasks: t.tasks.push(task), next_task_id: (t.next_task_id + 1) as i64, ..t };
    let after = add_task_at_spec(t, input, now)->Ok_0;
    let cut = Tables { time_blocks: before.update(p, truncated(b, now)), ..stored };
    let placed = schedule_spec(cut, ws, task.id, input.title, now, duration as int, true)->Ok_0;
    let urgent_stretches = place_spec(t.unplugged_times, ws, now as int, duration as int)->0;
    let urgent_blocks = blocks_for(
        urgent_stretches,
        cut.next_block_id,
        ws,
        task.id,
        input.title,
        true,
    );
    assert(placed.time_blocks == cut.time_blocks + urgent_blocks);
    let shifted_blocks = shift_blocks(placed.time_blocks, ws, b.end_time, duration as int);
    let shifted = Tables { time_blocks: shifted_blocks, ..placed };
    // the minutes of the preempted task, step by step
    lemma_minutes_of_updated(before, p, truncated(b, now), owner);
    lemma_minutes_of_joined(cut.time_blocks, urgent_blocks, owner);
    lemma_minutes_of_placed(
        urgent_stretches,
        cut.next_block_id,
        ws,
        task.id,
        input.title,
        true,
        owner,
    );
    assert forall|i: int| 0 <= i < shifted_blocks.len() implies (
    #[trigger] shifted_blocks[i]).task_id == placed.time_blocks[i].task_id
        && shifted_blocks[i].duration() == placed.time_blocks[i].duration() by {
        assert(shifted_blocks[i] == shift_one(
            placed.time_blocks[i],
            ws,
            b.end_time,
            duration as int,
        ));
        if i < before.len() {
            assert(cut.time_blocks[i].wf()) by {
                assert(before[i].wf());
            }
        } else {
            lemma_placement(
                t.unplugged_times,
                ws,
                day_start(now as int),
                now as int,
                duration as int,
            );
            let s = urgent_stretches[i - before.len()];
            assert(placed.time_blocks[i] == urgent_blocks[i - before.len()]);
            assert(s.0 < s.1);
        }
    }
    lemma_minutes_of_alike(shifted_blocks, placed.time_blocks, owner);
    assert(minutes_of_task(shifted_blocks, owner) == minutes_of_task(before, owner) - (b.end_time
        - now));
    if b.end_time - now > 0 {
        let resume_at = placed_end(t.unplugged_times, ws, now, duration as int);
        let resumed_stretches = place_spec(
            t.unplugged_times,
            ws,
            resume_at,
            b.end_time - now,
        )->0;
        let resumed_blocks = blocks_for(
            resumed_stretches,
            shifted.next_block_id,
            ws,
            b.task_id->0,
            b.title,
            b.is_urgent,
        );
        assert(after.time_blocks == shifted_blocks + resumed_blocks);
        lemma_minutes_of_joined(shifted_blocks, resumed_blocks, owner);
        lemma_minutes_of_placed(
            resumed_stretches,
            shifted.next_block_id,
            ws,
            b.task_id->0,
            b.title,
            b.is_urgent,
            owner,
        );
        lemma_placement(
            t.unplugged_times,
            ws,
            day_start(resume_at),
            resume_at,
            b.end_time - now,
        );
    } else {
        assert(after.time_blocks == shifted_blocks);
    }
    assert forall|j: int|
        0 <= j < before.len() && is_shifted(
            #[trigger] before[j],
            ws,
            b.end_time,
        ) implies after.time_blocks[j].start_time == before[j].start_time + duration
        && after.time_blocks[j].end_time == before[j].end_time + duration by {
        assert(before[j].wf());
        assert(placed.time_blocks[j] == cut.time_blocks[j]);
        assert(shifted_blocks[j] == shift_one(
            placed.time_blocks[j],
            ws,
            b.end_time,
            duration as int,
        ));
        assert(after.time_blocks[j] == shifted_blocks[j]);
    }
}

/// Whether the blocks named by the ids from position `k` on already lie
/// as a reorder from `cursor` lays them: each starts where the cursor
/// stands after its pass over the windows, and the cursor then moves to
/// the block's end.
pub open spec fn lies_as_laid(
    blocks: Seq<TimeBlock>,
    windows: Seq<UnpluggedTime>,
    ws: i64,
    ids: Seq<i64>,
    k: int,
    cursor: int,
) -> bool
    decreases ids.len() - k,
{
    if k < 0 || k >= ids.len() {
        true
    } else {
        let p = open_position(blocks, ws, ids[k], 0);
        if p >= blocks.len() {
            lies_as_laid(blocks, windows, ws, ids, k + 1, cursor)
        } else {
            blocks[p].start_time == skip_windows(windows, ws, cursor, windows.len() as int)
                && lies_as_laid(blocks, windows, ws, ids, k + 1, blocks[p].end_time as int)
        }
    }
}

/// Laying out blocks that already lie as they are laid changes nothing.
pub proof fn lemma_reorder_from_in_place(
    blocks: Seq<TimeBlock>,
    windows: Seq<UnpluggedTime>,
    ws: i64,
    ids: Seq<i64>,
    k: int,
    cursor: int,
)
    requires
        0 <= k,
        forall|i: int| 0 <= i < blocks.len() ==> (#[trigger] blocks[i]).wf(),
        lies_as_laid(blocks, windows, ws, ids, k, cursor),
    ensures
        reorder_from(blocks, blocks, windows, ws, ids, k, cursor) == Some(blocks),
    decreases ids.len() - k,
{
    if k < ids.len() {
        let p = open_position(blocks, ws, ids[k], 0);
        lemma_open_position(blocks, ws, ids[k], 0);
        if p >= blocks.len() {
            lemma_reorder_from_in_place(blocks, windows, ws, ids, k + 1, cursor);
        } else {
            assert(blocks[p].wf());
            let start = skip_windows(windows, ws, cursor, windows.len() as int);
            let end = start + blocks[p].duration();
            assert(blocks.update(p, relaid(blocks[p], start as i64, end as i64)) =~= blocks);
            lemma_reorder_from_in_place(blocks, windows, ws, ids, k + 1, end);
        }
    }
}

/// A reorder in the order in which the blocks already lie, one after the
/// other from the earliest open start on, changes nothing.
pub proof fn lemma_reorder_in_place(t: Tables, ws: i64, ids: Seq<i64>)
    requires
        t.wf(),
        earliest_open_start(t.time_blocks, ws) matches Some(first) ==> lies_as_laid(
            t.time_blocks,
            t.unplugged_times,
            ws,
            ids,
            0,
            first as int,
        ),
    ensures
        reorder_spec(t, ws, ids) == Ok::<Tables, crate::error::ErrorKind>(t),
{
    match earliest_open_start(t.time_blocks, ws) {
        Some(first) => {
            lemma_reorder_from_in_place(
                t.time_blocks,
                t.unplugged_times,
                ws,
                ids,
                0,
                first as int,
            );
        },
        None => {},
    }
}

/// Whether two lists of blocks agree in everything a reorder reads of a
/// snapshot: ids, workspaces, statuses and lengths.
pub open spec fn alike_for_reorder(a: Seq<TimeBlock>, b: Seq<TimeBlock>) -> bool {
    &&& a.len() == b.len()
    &&& forall|i: int|
        0 <= i < a.len() ==> {
            &&& (#[trigger] a[i]).id == b[i].id
            &&& a[i].workspace_id == b[i].workspace_id
            &&& a[i].status == b[i].status
            &&& a[i].duration() == b[i].duration()
        }
}

/// Whether two blocks agree in everything but their times.
pub open spec fn same_but_times(a: TimeBlock, b: TimeBlock) -> bool {
    relaid(a, 0, 0) == relaid(b, 0, 0)
}

/// Whether a reorder writes to position `q` for one of the ids from
/// position `k` on.
pub open spec fn written_from(
    snapshot: Seq<TimeBlock>,
    ws: i64,
    ids: Seq<i64>,
    k: int,
    q: int,
) -> bool {
    exists|j: int| k <= j < ids.len() && #[trigger] open_position(snapshot, ws, ids[j], 0) == q
}

proof fn lemma_open_position_alike(a: Seq<TimeBlock>, b: Seq<TimeBlock>, ws: i64, id: i64, from: int)
    requires
        alike_for_reorder(a, b),
        0 <= from,
    ensures
        open_position(a, ws, id, from) == open_position(b, ws, id, from),
    decreases a.len() - from,
{
    if from < a.len() {
        assert(a[from].id == b[from].id);
        lemma_open_position_alike(a, b, ws, id, from + 1);
    }
}

/// A reorder reads of its snapshot only ids, workspaces, statuses and
/// lengths.
proof fn lemma_reorder_reads_snapshot(
    blocks: Seq<TimeBlock>,
    one: Seq<TimeBlock>,
    other: Seq<TimeBlock>,
    windows: Seq<UnpluggedTime>,
    ws: i64,
    ids: Seq<i64>,
    k: int,
    cursor: int,
)
    requires
        alike_for_reorder(one, other),
        0 <= k,
    ensures
        reorder_from(blocks, one, windows, ws, ids, k, cursor) == reorder_from(
            blocks,
            other,
            windows,
            ws,
            ids,
            k,
            cursor,
        ),
    decreases ids.len() - k,
{
    if k < ids.len() {
        lemma_open_position_alike(one, other, ws, ids[k], 0);
        lemma_open_position(one, ws, ids[k], 0);
        let p = open_position(one, ws, ids[k], 0);
        if p >= one.len() {
            lemma_reorder_reads_snapshot(blocks, one, other, windows, ws, ids, k + 1, cursor);
        } else {
            let start = skip_windows(windows, ws, cursor, windows.len() as int);
            let end = start + one[p].duration();
            assert(one[p].duration() == other[p].duration());
            if valid_instant(end) {
                lemma_reorder_reads_snapshot(
                    blocks.update(p, relaid(blocks[p], start as i64, end as i64)),
                    one,
                    other,
                    windows,
                    ws,
                    ids,
                    k + 1,
                    end,
                );
            }
        }
    }
}

/// A reorder from two cursors that one pass over the windows brings to
/// the same instant gives the same.
proof fn lemma_reorder_reads_cursor(
    blocks: Seq<TimeBlock>,
    snapshot: Seq<TimeBlock>,
    windows: Seq<UnpluggedTime>,
    ws: i64,
    ids: Seq<i64>,
    k: int,
    c1: int,
    c2: int,
)
    requires
        0 <= k,
        skip_windows(windows, ws, c1, windows.len() as int) == skip_windows(
            windows,
            ws,
            c2,
            windows.len() as int,
        ),
    ensures
        reorder_from(blocks, snapshot, windows, ws, ids, k, c1) == reorder_from(
            blocks,
            snapshot,
            windows,
            ws,
            ids,
            k,
            c2,
        ),
    decreases ids.len() - k,
{
    if k < ids.len() {
        let p = open_position(snapshot, ws, ids[k], 0);
        if p >= snapshot.len() {
            lemma_reorder_reads_cursor(blocks, snapshot, windows, ws, ids, k + 1, c1, c2);
        }
    }
}

/// What a reorder gives agrees with what it was given in everything but
/// times, and wholly at the positions to which it does not write.
proof fn lemma_reorder_writes(
    blocks: Seq<TimeBlock>,
    snapshot: Seq<TimeBlock>,
    windows: Seq<UnpluggedTime>,
    ws: i64,
    ids: Seq<i64>,
    k: int,
    cursor: int,
)
    requires
        0 <= k,
        blocks.len() == snapshot.len(),
        windows_wf(windows),
        valid_instant(cursor),
    ensures
        reorder_from(blocks, snapshot, windows, ws, ids, k, cursor) matches Some(after) ==> {
            &&& after.len() == blocks.len()
            &&& forall|q: int|
                0 <= q < after.len() ==> same_but_times(#[trigger] after[q], blocks[q])
            &&& forall|q: int|
                0 <= q < after.len() && !written_from(snapshot, ws, ids, k, q) ==> #[trigger] after[q]
                    == blocks[q]
            &&& forall|q: int|
                0 <= q < after.len() && written_from(snapshot, ws, ids, k, q) ==> (
                #[trigger] after[q]).duration() == snapshot[q].duration()
        },
    decreases ids.len() - k,
{
    if k < ids.len() {
        let p = open_position(snapshot, ws, ids[k], 0);
        lemma_open_position(snapshot, ws, ids[k], 0);
        if p >= snapshot.len() {
            lemma_reorder_writes(blocks, snapshot, windows, ws, ids, k + 1, cursor);
            match reorder_from(blocks, snapshot, windows, ws, ids, k, cursor) {
                Some(after) => {
                    assert forall|q: int|
                        0 <= q < after.len() implies (written_from(snapshot, ws, ids, k, q)
                        <==> written_from(snapshot, ws, ids, k + 1, q)) by {
                        if written_from(snapshot, ws, ids, k, q) {
                            let j = choose|j: int|
                                k <= j < ids.len() && #[trigger] open_position(
                                    snapshot,
                                    ws,
                                    ids[j],
                                    0,
                                ) == q;
                            assert(j != k);
                            assert(k + 1 <= j < ids.len() && open_position(snapshot, ws, ids[j], 0)
                                == q);
                        }
                        if written_from(snapshot, ws, ids, k + 1, q) {
                            let j = choose|j: int|
                                k + 1 <= j < ids.len() && #[trigger] open_position(
                                    snapshot,
                                    ws,
                                    ids[j],
                                    0,
                                ) == q;
                            assert(k <= j < ids.len() && open_position(snapshot, ws, ids[j], 0)
                                == q);
                        }
                    }
                },
                None => {},
            }
        } else {
            let start = skip_windows(windows, ws, cursor, windows.len() as int);
            lemma_skip_windows(windows, ws, cursor, windows.len() as int);
            let end = start + snapshot[p].duration();
            if valid_instant(end) {
                let next = blocks.update(p, relaid(blocks[p], start as i64, end as i64));
                lemma_reorder_writes(next, snapshot, windows, ws, ids, k + 1, end);
                match reorder_from(next, snapshot, windows, ws, ids, k + 1, end) {
                    Some(after) => {
                        assert(k <= k < ids.len() && open_position(snapshot, ws, ids[k], 0) == p);
                        assert(written_from(snapshot, ws, ids, k, p));
                        assert forall|q: int| 0 <= q < after.len() implies same_but_times(
                            #[trigger] after[q],
                            blocks[q],
                        ) by {
                            assert(same_but_times(after[q], next[q]));
                        }
                        assert forall|q: int|
                            0 <= q < after.len() && !written_from(
                                snapshot,
                                ws,
                                ids,
                                k,
                                q,
                            ) implies #[trigger] after[q] == blocks[q] by {
                            if written_from(snapshot, ws, ids, k + 1, q) {
                                let j = choose|j: int|
                                    k + 1 <= j < ids.len() && #[trigger] open_position(
                                        snapshot,
                                        ws,
                                        ids[j],
                                        0,
                                    ) == q;
                                assert(k <= j < ids.len() && open_position(
                                    snapshot,
                                    ws,
                                    ids[j],
                                    0,
                                ) == q);
                            }
                            assert(q != p);
                        }
                        assert forall|q: int|
                            0 <= q < after.len() && written_from(snapshot, ws, ids, k, q) implies (
                        #[trigger] after[q]).duration() == snapshot[q].duration() by {
                            if !written_from(snapshot, ws, ids, k + 1, q) {
                                let j = choose|j: int|
                                    k <= j < ids.len() && #[trigger] open_position(
                                        snapshot,
                                        ws,
                                        ids[j],
                                        0,
                                    ) == q;
                                if j != k {
                                    assert(k + 1 <= j < ids.len() && open_position(
                                        snapshot,
                                        ws,
                                        ids[j],
                                        0,
                                    ) == q);
                                }
                                assert(q == p);
                                assert(after[q] == next[q]);
                            }
                        }
                    },
                    None => {},
                }
            }
        }
    }
}

/// A reorder of two lists that agree in everything but times, and wholly
/// at the positions to which the reorder does not write, gives the same.
proof fn lemma_reorder_overwrites(
    b1: Seq<TimeBlock>,
    b2: Seq<TimeBlock>,
    snapshot: Seq<TimeBlock>,
    windows: Seq<UnpluggedTime>,
    ws: i64,
    ids: Seq<i64>,
    k: int,
    cursor: int,
)
    requires
        0 <= k,
        b1.len() == snapshot.len(),
        b2.len() == snapshot.len(),
        forall|q: int| 0 <= q < b1.len() ==> same_but_times(#[trigger] b1[q], b2[q]),
        forall|q: int|
            0 <= q < b1.len() && !written_from(snapshot, ws, ids, k, q) ==> #[trigger] b1[q]
                == b2[q],
    ensures
        reorder_from(b1, snapshot, windows, ws, ids, k, cursor) == reorder_from(
            b2,
            snapshot,
            windows,
            ws,
            ids,
            k,
            cursor,
        ),
    decreases ids.len() - k,
{
    if k < ids.len() {
        let p = open_position(snapshot, ws, ids[k], 0);
        lemma_open_position(snapshot, ws, ids[k], 0);
        if p >= snapshot.len() {
            assert forall|q: int|
                0 <= q < b1.len() && !written_from(
                    snapshot,
                    ws,
                    ids,
                    k + 1,
                    q,
                ) implies #[trigger] b1[q] == b2[q] by {
                if written_from(snapshot, ws, ids, k, q) {
                    let j = choose|j: int|
                        k <= j < ids.len() && #[trigger] open_position(snapshot, ws, ids[j], 0)
                            == q;
                    assert(j != k);
                    assert(k + 1 <= j < ids.len() && open_position(snapshot, ws, ids[j], 0) == q);
                }
            }
            lemma_reorder_overwrites(b1, b2, snapshot, windows, ws, ids, k + 1, cursor);
        } else {
            let start = skip_windows(windows, ws, cursor, windows.len() as int);
            let end = start + snapshot[p].duration();
            if valid_instant(end) {
                let n1 = b1.update(p, relaid(b1[p], start as i64, end as i64));
                let n2 = b2.update(p, relaid(b2[p], start as i64, end as i64));
                assert(same_but_times(b1[p], b2[p]));
                assert(n1[p] == n2[p]);
                assert forall|q: int| 0 <= q < n1.len() implies same_but_times(
                    #[trigger] n1[q],
                    n2[q],
                ) by {
                    assert(same_but_times(b1[q], b2[q]));
                }
                assert forall|q: int|
                    0 <= q < n1.len() && !written_from(
                        snapshot,
                        ws,
                        ids,
                        k + 1,
                        q,
                    ) implies #[trigger] n1[q] == n2[q] by {
                    if q != p {
                        if written_from(snapshot, ws, ids, k, q) {
                            let j = choose|j: int|
                                k <= j < ids.len() && #[trigger] open_position(
                                    snapshot,
                                    ws,
                                    ids[j],
                                    0,
                                ) == q;
                            assert(j != k);
                            assert(k + 1 <= j < ids.len() && open_position(snapshot, ws, ids[j], 0)
                                == q);
                        }
                        assert(b1[q] == b2[q]);
                    }
                }
                lemma_reorder_overwrites(n1, n2, snapshot, windows, ws, ids, k + 1, end);
            }
        }
    }
}

/// A reorder done twice with the same order gives what it gives done
/// once, when one pass over the windows brings the earliest open start
/// after the first reorder to where it brings the earliest open start
/// before it.
pub proof fn lemma_reorder_twice(t: Tables, ws: i64, ids: Seq<i64>)
    requires
        t.wf(),
        reorder_spec(t, ws, ids) is Ok,
        match (
            earliest_open_start(t.time_blocks, ws),
            earliest_open_start(reorder_spec(t, ws, ids)->Ok_0.time_blocks, ws),
        ) {
            (Some(c1), Some(c2)) => skip_windows(
                t.unplugged_times,
                ws,
                c1 as int,
                t.unplugged_times.len() as int,
            ) == skip_windows(t.unplugged_times, ws, c2 as int, t.unplugged_times.len() as int),
            _ => true,
        },
    ensures
        reorder_spec(reorder_spec(t, ws, ids)->Ok_0, ws, ids) == reorder_spec(t, ws, ids),
{
    let once = reorder_spec(t, ws, ids)->Ok_0;
    let before = t.time_blocks;
    let laid = once.time_blocks;
    let windows = t.unplugged_times;
    match earliest_open_start(before, ws) {
        Some(c1) => {
            lemma_earliest_open_start(before, ws);
            let w = choose|i: int|
                0 <= i < before.len() && is_open_in(#[trigger] before[i], ws)
                    && before[i].start_time == c1;
            assert(before[w].wf());
            lemma_reorder_writes(before, before, windows, ws, ids, 0, c1 as int);
            assert(alike_for_reorder(laid, before)) by {
                assert forall|i: int| 0 <= i < laid.len() implies (#[trigger] laid[i]).id
                    == before[i].id && laid[i].workspace_id == before[i].workspace_id
                    && laid[i].status == before[i].status && laid[i].duration()
                    == before[i].duration() by {
                    assert(same_but_times(laid[i], before[i]));
                    if !written_from(before, ws, ids, 0, i) {
                        assert(laid[i] == before[i]);
                    }
                }
            }
            match earliest_open_start(laid, ws) {
                Some(c2) => {
                    lemma_reorder_reads_snapshot(laid, laid, before, windows, ws, ids, 0, c2 as int);
                    lemma_reorder_reads_cursor(
                        laid,
                        before,
                        windows,
                        ws,
                        ids,
                        0,
                        c2 as int,
                        c1 as int,
                    );
                    lemma_reorder_overwrites(laid, before, before, windows, ws, ids, 0, c1 as int);
                },
                None => {},
            }
        },
        None => {},
    }
}

/// Whether a reorder writes to position `q` for one of the ids before
/// position `k`.
pub open spec fn written_before(
    snapshot: Seq<TimeBlock>,
    ws: i64,
    ids: Seq<i64>,
    k: int,
    q: int,
) -> bool {
    exists|j: int| 0 <= j < k && j < ids.len() && #[trigger] open_position(snapshot, ws, ids[j], 0) == q
}

/// What holds of the blocks while a reorder is under way, when the ids
/// before position `k` have been laid out and the cursor stands at
/// `cursor`: nothing but times has changed, the blocks not yet laid out
/// are as they were, and the blocks laid out lie between the first
/// cursor and the cursor, each non-empty, no two sharing a minute.
pub open spec fn laid_so_far(
    blocks: Seq<TimeBlock>,
    snapshot: Seq<TimeBlock>,
    ws: i64,
    ids: Seq<i64>,
    k: int,
    first: int,
    cursor: int,
) -> bool {
    &&& blocks.len() == snapshot.len()
    &&& first <= cursor
    &&& forall|q: int| 0 <= q < blocks.len() ==> same_but_times(#[trigger] blocks[q], snapshot[q])
    &&& forall|q: int|
        0 <= q < blocks.len() && !written_before(snapshot, ws, ids, k, q) ==> #[trigger] blocks[q]
            == snapshot[q]
    &&& forall|q: int|
        0 <= q < blocks.len() && written_before(snapshot, ws, ids, k, q) ==> first <= (
        #[trigger] blocks[q]).start_time < blocks[q].end_time <= cursor
    &&& forall|q: int, r: int|
        0 <= q < blocks.len() && 0 <= r < blocks.len() && q != r && written_before(
            snapshot,
            ws,
            ids,
            k,
            q,
        ) && written_before(snapshot, ws, ids, k, r) ==> !((#[trigger] blocks[q]).start_time < (
        #[trigger] blocks[r]).end_time && blocks[r].start_time < blocks[q].end_time)
}

/// Whether no id stands twice in the list.
pub open spec fn ids_distinct(ids: Seq<i64>) -> bool {
    forall|a: int, b: int| 0 <= a < b < ids.len() ==> ids[a] != ids[b]
}

/// A reorder that lays each block out once leaves the blocks it lays out
/// one after the other, each non-empty, no two sharing a minute, none
/// before the first cursor, and leaves the other blocks as they were.
proof fn lemma_reorder_lays_apart(
    blocks: Seq<TimeBlock>,
    snapshot: Seq<TimeBlock>,
    windows: Seq<UnpluggedTime>,
    ws: i64,
    ids: Seq<i64>,
    k: int,
    first: int,
    cursor: int,
) -> (end: int)
    requires
        0 <= k,
        windows_wf(windows),
        valid_instant(cursor),
        ids_distinct(ids),
        forall|q: int| 0 <= q < snapshot.len() ==> (#[trigger] snapshot[q]).start_time
            < snapshot[q].end_time,
        laid_so_far(blocks, snapshot, ws, ids, k, first, cursor),
    ensures
        reorder_from(blocks, snapshot, windows, ws, ids, k, cursor) matches Some(after)
            ==> laid_so_far(after, snapshot, ws, ids, ids.len() as int, first, end),
    decreases ids.len() - k,
{
    if k >= ids.len() {
        assert forall|q: int| 0 <= q < blocks.len() implies (written_before(snapshot, ws, ids, k, q)
            <==> written_before(snapshot, ws, ids, ids.len() as int, q)) by {
            if written_before(snapshot, ws, ids, k, q) {
                let j = choose|j: int|
                    0 <= j < k && j < ids.len() && #[trigger] open_position(snapshot, ws, ids[j], 0)
                        == q;
                assert(0 <= j < ids.len() && j < ids.len() && open_position(
                    snapshot,
                    ws,
                    ids[j],
                    0,
                ) == q);
            }
            if written_before(snapshot, ws, ids, ids.len() as int, q) {
                let j = choose|j: int|
                    0 <= j < ids.len() && j < ids.len() && #[trigger] open_position(
                        snapshot,
                        ws,
                        ids[j],
                        0,
                    ) == q;
                assert(0 <= j < k && j < ids.len() && open_position(snapshot, ws, ids[j], 0) == q);
            }
        }
        assert(laid_so_far(blocks, snapshot, ws, ids, ids.len() as int, first, cursor));
        assert(reorder_from(blocks, snapshot, windows, ws, ids, k, cursor) == Some(blocks));
        cursor
    } else {
        let p = open_position(snapshot, ws, ids[k], 0);
        lemma_open_position(snapshot, ws, ids[k], 0);
        assert forall|q: int| 0 <= q < blocks.len() implies (written_before(
            snapshot,
            ws,
            ids,
            k + 1,
            q,
        ) <==> written_before(snapshot, ws, ids, k, q) || q == p) by {
            if written_before(snapshot, ws, ids, k + 1, q) {
                let j = choose|j: int|
                    0 <= j < k + 1 && j < ids.len() && #[trigger] open_position(
                        snapshot,
                        ws,
                        ids[j],
                        0,
                    ) == q;
                if j < k {
                    assert(0 <= j < k && j < ids.len() && open_position(snapshot, ws, ids[j], 0)
                        == q);
                }
            }
            if written_before(snapshot, ws, ids, k, q) {
                let j = choose|j: int|
                    0 <= j < k && j < ids.len() && #[trigger] open_position(snapshot, ws, ids[j], 0)
                        == q;
                assert(0 <= j < k + 1 && j < ids.len() && open_position(snapshot, ws, ids[j], 0)
                    == q);
            }
            if q == p {
                assert(0 <= k < k + 1 && k < ids.len() && open_position(snapshot, ws, ids[k], 0)
                    == q);
            }
        }
        if p >= snapshot.len() {
            assert(laid_so_far(blocks, snapshot, ws, ids, k + 1, first, cursor));
            let last = lemma_reorder_lays_apart(
                blocks,
                snapshot,
                windows,
                ws,
                ids,
                k + 1,
                first,
                cursor,
            );
            assert(reorder_from(blocks, snapshot, windows, ws, ids, k, cursor) == reorder_from(
                blocks,
                snapshot,
                windows,
                ws,
                ids,
                k + 1,
                cursor,
            ));
            last
        } else {
            let start = skip_windows(windows, ws, cursor, windows.len() as int);
            lemma_skip_windows(windows, ws, cursor, windows.len() as int);
            let end = start + snapshot[p].duration();
            if valid_instant(end) {
                assert(snapshot[p].start_time < snapshot[p].end_time);
                assert(!written_before(snapshot, ws, ids, k, p)) by {
                    if written_before(snapshot, ws, ids, k, p) {
                        let j = choose|j: int|
                            0 <= j < k && j < ids.len() && #[trigger] open_position(
                                snapshot,
                                ws,
                                ids[j],
                                0,
                            ) == p;
                        lemma_open_position(snapshot, ws, ids[j], 0);
                        assert(ids[j] == ids[k]);
                    }
                }
                let next = blocks.update(p, relaid(blocks[p], start as i64, end as i64));
                assert(laid_so_far(next, snapshot, ws, ids, k + 1, first, end)) by {
                    assert forall|q: int| 0 <= q < next.len() implies same_but_times(
                        #[trigger] next[q],
                        snapshot[q],
                    ) by {
                        assert(same_but_times(blocks[q], snapshot[q]));
                    }
                    assert forall|q: int|
                        0 <= q < next.len() && written_before(
                            snapshot,
                            ws,
                            ids,
                            k + 1,
                            q,
                        ) implies first <= (#[trigger] next[q]).start_time < next[q].end_time
                        <= end by {
                        if q != p {
                            assert(written_before(snapshot, ws, ids, k, q));
                            assert(blocks[q].end_time <= cursor);
                        }
                    }
                    assert forall|q: int, r: int|
                        0 <= q < next.len() && 0 <= r < next.len() && q != r && written_before(
                            snapshot,
                            ws,
                            ids,
                            k + 1,
                            q,
                        ) && written_before(snapshot, ws, ids, k + 1, r) implies !((
                    #[trigger] next[q]).start_time < (#[trigger] next[r]).end_time
                        && next[r].start_time < next[q].end_time) by {
                        if q != p && r != p {
                            assert(written_before(snapshot, ws, ids, k, q));
                            assert(written_before(snapshot, ws, ids, k, r));
                            assert(!(blocks[q].start_time < blocks[r].end_time
                                && blocks[r].start_time < blocks[q].end_time));
                        } else if q == p {
                            assert(written_before(snapshot, ws, ids, k, r));
                            assert(blocks[r].end_time <= cursor);
                        } else {
                            assert(written_before(snapshot, ws, ids, k, q));
                            assert(blocks[q].end_time <= cursor);
                        }
                    }
                }
                let last = lemma_reorder_lays_apart(
                    next,
                    snapshot,
                    windows,
                    ws,
                    ids,
                    k + 1,
                    first,
                    end,
                );
                assert(reorder_from(blocks, snapshot, windows, ws, ids, k, cursor) == reorder_from(
                    next,
                    snapshot,
                    windows,
                    ws,
                    ids,
                    k + 1,
                    end,
                ));
                last
            } else {
                assert(reorder_from(blocks, snapshot, windows, ws, ids, k, cursor) is None);
                cursor
            }
        }
    }
}

/// A reorder keeps the blocks of a workspace from overlapping when it
/// names each open block of the workspace once, every block is
/// non-empty, and no finished block of the workspace ends after the
/// earliest open block starts.
pub proof fn lemma_reorder_keeps_no_overlap(t: Tables, ws: i64, ids: Seq<i64>)
    requires
        t.wf(),
        crate::invariants::no_overlap(t.time_blocks),
        crate::invariants::all_nonempty(t.time_blocks),
        reorder_spec(t, ws, ids) is Ok,
        ids_distinct(ids),
        forall|i: int|
            0 <= i < t.time_blocks.len() && is_open_in(#[trigger] t.time_blocks[i], ws)
                ==> ids.contains(t.time_blocks[i].id),
        earliest_open_start(t.time_blocks, ws) matches Some(first) ==> forall|i: int|
            0 <= i < t.time_blocks.len() && (#[trigger] t.time_blocks[i]).workspace_id == ws
                && !is_open_in(t.time_blocks[i], ws) ==> t.time_blocks[i].end_time <= first,
    ensures
        crate::invariants::no_overlap(reorder_spec(t, ws, ids)->Ok_0.time_blocks),
{
    let before = t.time_blocks;
    let after = reorder_spec(t, ws, ids)->Ok_0.time_blocks;
    match earliest_open_start(before, ws) {
        Some(first) => {
            lemma_earliest_open_start(before, ws);
            let w = choose|i: int|
                0 <= i < before.len() && is_open_in(#[trigger] before[i], ws)
                    && before[i].start_time == first;
            assert(before[w].wf());
            assert(laid_so_far(before, before, ws, ids, 0, first as int, first as int));
            assert forall|q: int| 0 <= q < before.len() implies (#[trigger] before[q]).start_time
                < before[q].end_time by {}
            let end = lemma_reorder_lays_apart(
                before,
                before,
                t.unplugged_times,
                ws,
                ids,
                0,
                first as int,
                first as int,
            );
            let n = ids.len() as int;
            assert forall|i: int|
                0 <= i < before.len() && is_open_in(
                    #[trigger] before[i],
                    ws,
                ) implies written_before(before, ws, ids, n, i) by {
                let j = choose|j: int| 0 <= j < ids.len() && ids[j] == before[i].id;
                lemma_open_position(before, ws, ids[j], 0);
                lemma_open_position_is(before, ws, ids[j], i, t.next_block_id);
                assert(0 <= j < n && j < ids.len() && open_position(before, ws, ids[j], 0) == i);
            }
            assert forall|i: int, j: int|
                0 <= i < after.len() && 0 <= j < after.len() && i != j
                implies !crate::invariants::blocks_overlap(
                #[trigger] after[i],
                #[trigger] after[j],
            ) by {
                assert(same_but_times(after[i], before[i]));
                assert(same_but_times(after[j], before[j]));
                assert(before[i].wf());
                assert(before[j].wf());
                assert(!crate::invariants::blocks_overlap(before[i], before[j]));
                assert(before[i].start_time < before[i].end_time);
                assert(before[j].start_time < before[j].end_time);
                if after[i].workspace_id == after[j].workspace_id {
                    let wi = written_before(before, ws, ids, n, i);
                    let wj = written_before(before, ws, ids, n, j);
                    if wi {
                        lemma_written_is_open(before, ws, ids, n, i);
                    }
                    if wj {
                        lemma_written_is_open(before, ws, ids, n, j);
                    }
                    if wi && !wj {
                        assert(!is_open_in(before[j], ws));
                        assert(before[j].end_time <= first);
                    }
                    if wj && !wi {
                        assert(!is_open_in(before[i], ws));
                        assert(before[i].end_time <= first);
                    }
                }
            }
        },
        None => {},
    }
}

/// The open block of a workspace with a given id stands where
/// `open_position` finds it, ids being unique.
proof fn lemma_open_position_is(blocks: Seq<TimeBlock>, ws: i64, id: i64, i: int, next_id: i64)
    requires
        crate::repository::blocks_wf(blocks, next_id),
        0 <= i < blocks.len(),
        is_open_in(blocks[i], ws),
        blocks[i].id == id,
    ensures
        open_position(blocks, ws, id, 0) == i,
{
    lemma_open_position_from(blocks, ws, id, i, 0, next_id);
}

proof fn lemma_open_position_from(
    blocks: Seq<TimeBlock>,
    ws: i64,
    id: i64,
    i: int,
    from: int,
    next_id: i64,
)
    requires
        crate::repository::blocks_wf(blocks, next_id),
        0 <= from <= i < blocks.len(),
        is_open_in(blocks[i], ws),
        blocks[i].id == id,
    ensures
        open_position(blocks, ws, id, from) == i,
    decreases i - from,
{
    if from < i {
        assert(blocks[from].id < blocks[i].id);
        lemma_open_position_from(blocks, ws, id, i, from + 1, next_id);
    }
}

/// A position that a reorder writes to holds an open block of the
/// workspace.
proof fn lemma_written_is_open(blocks: Seq<TimeBlock>, ws: i64, ids: Seq<i64>, k: int, q: int)
    requires
        0 <= q < blocks.len(),
        written_before(blocks, ws, ids, k, q),
    ensures
        is_open_in(blocks[q], ws),
{
    let j = choose|j: int|
        0 <= j < k && j < ids.len() && #[trigger] open_position(blocks, ws, ids[j], 0) == q;
    lemma_open_position(blocks, ws, ids[j], 0);
}

} // verus!
