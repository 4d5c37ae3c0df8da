//! What holds of a timeline, and which commands keep it.
//!
//! Five properties are stated of the stored blocks. Each command keeps
//! some of them whatever it is given and others only on some inputs; the
//! lemmas below say which, command by command.

use vstd::prelude::*;
use crate::clock::day_start;
use crate::clock::valid_instant;
use crate::inbox::delete_task_spec;
use crate::inbox::lemma_filter_blocks_wf;
use crate::inbox::move_to_inbox_spec;
use crate::inbox::not_of_task;
use crate::models::BlockStatus;
use crate::models::TimeBlock;
use crate::models::UnpluggedTime;
use crate::placer::lemma_placement;
use crate::placer::place_spec;
use crate::placer::placement_ok;
use crate::placer::window_overlaps;
use crate::repository::latest_end;
use crate::repository::lemma_latest_end;
use crate::repository::counts_for_latest;
use crate::repository::task_has_block;
use crate::scheduler::add_task_at_spec;
use crate::scheduler::blocks_for;
use crate::scheduler::next_start;
use crate::scheduler::requested_minutes;
use crate::scheduler::schedule_spec;
use crate::inbox::effective_minutes;
use crate::inbox::in_inbox;
use crate::inbox::move_all_to_timeline_spec;
use crate::inbox::move_to_timeline_spec;
use crate::inbox::place_inbox;
use crate::clock::crosses_midnight;
use crate::models::AddTaskInput;
use crate::shifter::is_shifted;
use crate::shifter::shift_blocks;
use crate::shifter::shift_fits;
use crate::shifter::lemma_shift_wf;
use crate::scheduler::lemma_schedule_wf;
use crate::scheduler::placed_end;
use crate::scheduler::requested_task;
use crate::scheduler::truncated;
use crate::repository::active_position;
use crate::repository::lemma_active_position;
use crate::repository::block_position;
use crate::repository::lemma_block_position;
use crate::transitioner::extra_of;
use crate::transitioner::lemma_same_ids_wf;
use crate::transitioner::mark_done;
use crate::transitioner::process_transition_spec;
use crate::transitioner::transition_end;
use crate::models::TaskTransitionInput;
use crate::models::TransitionAction;
use crate::reorderer::earliest_open_start;
use crate::reorderer::lemma_earliest_open_start;
use crate::reorderer::lemma_open_position;
use crate::reorderer::lemma_skip_windows;
use crate::reorderer::open_position;
use crate::reorderer::relaid;
use crate::reorderer::reorder_from;
use crate::reorderer::reorder_spec;
use crate::reorderer::skip_windows;
use crate::reorderer::is_open_in;
use crate::repository::Tables;
use crate::repository::blocks_wf;
use crate::split_deletion::count_of_task;
use crate::split_deletion::lemma_count_grows;
use crate::split_deletion::not_planned_of;
use crate::split_deletion::repointed;
use crate::split_deletion::split_deletion_spec;
use crate::transitioner::update_block_status_spec;

verus! {

/// Whether two blocks of one workspace share a minute.
pub open spec fn blocks_overlap(a: TimeBlock, b: TimeBlock) -> bool {
    a.workspace_id == b.workspace_id && a.status != BlockStatus::Unplugged && b.status
        != BlockStatus::Unplugged && a.start_time < b.end_time && b.start_time < a.end_time
}

/// No two blocks of a workspace share a minute.
pub open spec fn no_overlap(blocks: Seq<TimeBlock>) -> bool {
    forall|i: int, j: int|
        0 <= i < blocks.len() && 0 <= j < blocks.len() && i != j ==> !blocks_overlap(
            #[trigger] blocks[i],
            #[trigger] blocks[j],
        )
}

/// Whether a block shares a minute with a window of its workspace, the
/// window laid onto the day on which the block starts.
pub open spec fn block_hits_window(b: TimeBlock, w: UnpluggedTime) -> bool {
    b.status != BlockStatus::Unplugged && window_overlaps(
        w,
        b.workspace_id,
        day_start(b.start_time as int),
        b.start_time as int,
        b.end_time as int,
    )
}

/// No block shares a minute with an unplugged window of its workspace on
/// the day on which it starts.
pub open spec fn avoids_windows(blocks: Seq<TimeBlock>, windows: Seq<UnpluggedTime>) -> bool {
    forall|i: int, k: int|
        0 <= i < blocks.len() && 0 <= k < windows.len() ==> !block_hits_window(
            #[trigger] blocks[i],
            #[trigger] windows[k],
        )
}

/// Of two blocks of one task, the one with the greater id starts later.
pub open spec fn ids_follow_starts(blocks: Seq<TimeBlock>) -> bool {
    forall|i: int, j: int|
        0 <= i < blocks.len() && 0 <= j < blocks.len() && (#[trigger] blocks[i]).task_id == (
        #[trigger] blocks[j]).task_id && blocks[i].id < blocks[j].id ==> blocks[i].start_time
            < blocks[j].start_time
}

/// At most one block of a task is being worked on.
pub open spec fn one_active_per_task(blocks: Seq<TimeBlock>) -> bool {
    forall|i: int, j: int|
        0 <= i < blocks.len() && 0 <= j < blocks.len() && i != j && (
        #[trigger] blocks[i]).task_id == (#[trigger] blocks[j]).task_id ==> !(blocks[i].status
            == BlockStatus::Now && blocks[j].status == BlockStatus::Now)
}

/// Every block ends after it starts.
pub open spec fn all_nonempty(blocks: Seq<TimeBlock>) -> bool {
    forall|i: int| 0 <= i < blocks.len() ==> (#[trigger] blocks[i]).start_time < blocks[i].end_time
}

/// Whether `after` holds rows of `before` only, each at most once:
/// `origin` gives for each row of `after` its place in `before`.
pub open spec fn rows_drawn_from(
    after: Seq<TimeBlock>,
    before: Seq<TimeBlock>,
    origin: spec_fn(int) -> int,
) -> bool {
    &&& forall|i: int|
        0 <= i < after.len() ==> 0 <= #[trigger] origin(i) < before.len() && before[origin(i)]
            == after[i]
    &&& forall|i: int, j: int|
        0 <= i < after.len() && 0 <= j < after.len() && i != j ==> #[trigger] origin(i)
            != #[trigger] origin(j)
}

/// Rows that remain after some of a storable table were dropped are drawn
/// from the table.
pub proof fn lemma_filter_draws(
    blocks: Seq<TimeBlock>,
    next_id: i64,
    keep: spec_fn(TimeBlock) -> bool,
) -> (origin: spec_fn(int) -> int)
    requires
        blocks_wf(blocks, next_id),
    ensures
        rows_drawn_from(blocks.filter(keep), blocks, origin),
{
    lemma_filter_blocks_wf(blocks, next_id, keep);
    let after = blocks.filter(keep);
    let origin = |i: int| choose|j: int| 0 <= j < blocks.len() && blocks[j] == after[i];
    assert forall|i: int| 0 <= i < after.len() implies 0 <= #[trigger] origin(i) < blocks.len()
        && blocks[origin(i)] == after[i] by {}
    assert forall|i: int, j: int|
        0 <= i < after.len() && 0 <= j < after.len() && i != j implies #[trigger] origin(i)
        != #[trigger] origin(j) by {
        if i < j {
            assert(after[i].id < after[j].id);
        } else {
            assert(after[j].id < after[i].id);
        }
    }
    origin
}

/// Dropping rows keeps all five properties.
pub proof fn lemma_drawn_rows_keep(
    after: Seq<TimeBlock>,
    before: Seq<TimeBlock>,
    windows: Seq<UnpluggedTime>,
    origin: spec_fn(int) -> int,
)
    requires
        rows_drawn_from(after, before, origin),
    ensures
        no_overlap(before) ==> no_overlap(after),
        avoids_windows(before, windows) ==> avoids_windows(after, windows),
        ids_follow_starts(before) ==> ids_follow_starts(after),
        one_active_per_task(before) ==> one_active_per_task(after),
        all_nonempty(before) ==> all_nonempty(after),
{
    if no_overlap(before) {
        assert forall|i: int, j: int|
            0 <= i < after.len() && 0 <= j < after.len() && i != j implies !blocks_overlap(
            #[trigger] after[i],
            #[trigger] after[j],
        ) by {
            assert(origin(i) != origin(j));
            assert(!blocks_overlap(before[origin(i)], before[origin(j)]));
        }
    }
    if avoids_windows(before, windows) {
        assert forall|i: int, k: int|
            0 <= i < after.len() && 0 <= k < windows.len() implies !block_hits_window(
            #[trigger] after[i],
            #[trigger] windows[k],
        ) by {
            assert(!block_hits_window(before[origin(i)], windows[k]));
        }
    }
    if ids_follow_starts(before) {
        assert forall|i: int, j: int|
            0 <= i < after.len() && 0 <= j < after.len() && (#[trigger] after[i]).task_id == (
            #[trigger] after[j]).task_id && after[i].id < after[j].id implies after[i].start_time
            < after[j].start_time by {
            assert(before[origin(i)].task_id == before[origin(j)].task_id);
        }
    }
    if one_active_per_task(before) {
        assert forall|i: int, j: int|
            0 <= i < after.len() && 0 <= j < after.len() && i != j && (
            #[trigger] after[i]).task_id == (#[trigger] after[j]).task_id implies !(after[i].status
            == BlockStatus::Now && after[j].status == BlockStatus::Now) by {
            assert(origin(i) != origin(j));
            assert(before[origin(i)].task_id == before[origin(j)].task_id);
        }
    }
    if all_nonempty(before) {
        assert forall|i: int| 0 <= i < after.len() implies (#[trigger] after[i]).start_time
            < after[i].end_time by {
            assert(before[origin(i)].start_time < before[origin(i)].end_time);
        }
    }
}

/// Rows drawn from a table in which every block belongs to a task whose
/// id has been handed out belong to such tasks too.
pub proof fn lemma_drawn_rows_have_tasks(after: Tables, before: Tables, origin: spec_fn(int) -> int)
    requires
        rows_drawn_from(after.time_blocks, before.time_blocks, origin),
        after.next_task_id >= before.next_task_id,
        blocks_have_tasks(before),
    ensures
        blocks_have_tasks(after),
{
    assert forall|i: int| 0 <= i < after.time_blocks.len() implies (
    #[trigger] after.time_blocks[i]).task_id is Some && after.time_blocks[i].task_id->0
        < after.next_task_id by {
        assert(before.time_blocks[origin(i)].task_id is Some);
    }
}

/// Moving the task of a block to the inbox keeps all five properties.
pub proof fn lemma_move_to_inbox_keeps(t: Tables, block_id: i64)
    requires
        t.wf(),
    ensures
        move_to_inbox_spec(t, block_id) matches Ok(after) ==> {
            &&& (blocks_have_tasks(t) ==> blocks_have_tasks(after))
            &&& (no_overlap(t.time_blocks) ==> no_overlap(after.time_blocks))
            &&& (avoids_windows(t.time_blocks, t.unplugged_times) ==> avoids_windows(
                after.time_blocks,
                after.unplugged_times,
            ))
            &&& (ids_follow_starts(t.time_blocks) ==> ids_follow_starts(after.time_blocks))
            &&& (one_active_per_task(t.time_blocks) ==> one_active_per_task(after.time_blocks))
            &&& (all_nonempty(t.time_blocks) ==> all_nonempty(after.time_blocks))
        },
{
    match move_to_inbox_spec(t, block_id) {
        Ok(after) => {
            if after.time_blocks != t.time_blocks {
                let i = crate::repository::block_position(t.time_blocks, block_id, 0);
                let origin = lemma_filter_draws(
                    t.time_blocks,
                    t.next_block_id,
                    not_of_task(t.time_blocks[i].task_id),
                );
                lemma_drawn_rows_keep(after.time_blocks, t.time_blocks, t.unplugged_times, origin);
                if blocks_have_tasks(t) {
                    lemma_drawn_rows_have_tasks(after, t, origin);
                }
            }
        },
        Err(_) => {},
    }
}

/// Deleting a task keeps all five properties.
pub proof fn lemma_delete_task_keeps(t: Tables, id: i64)
    requires
        t.wf(),
    ensures
        no_overlap(t.time_blocks) ==> no_overlap(delete_task_spec(t, id).time_blocks),
        avoids_windows(t.time_blocks, t.unplugged_times) ==> avoids_windows(
            delete_task_spec(t, id).time_blocks,
            delete_task_spec(t, id).unplugged_times,
        ),
        ids_follow_starts(t.time_blocks) ==> ids_follow_starts(delete_task_spec(t, id).time_blocks),
        one_active_per_task(t.time_blocks) ==> one_active_per_task(
            delete_task_spec(t, id).time_blocks,
        ),
        all_nonempty(t.time_blocks) ==> all_nonempty(delete_task_spec(t, id).time_blocks),
        blocks_have_tasks(t) ==> blocks_have_tasks(delete_task_spec(t, id)),
{
    let origin = lemma_filter_draws(t.time_blocks, t.next_block_id, not_of_task(Some(id)));
    if blocks_have_tasks(t) {
        lemma_drawn_rows_have_tasks(delete_task_spec(t, id), t, origin);
    }
    lemma_drawn_rows_keep(
        delete_task_spec(t, id).time_blocks,
        t.time_blocks,
        t.unplugged_times,
        origin,
    );
}

/// Whether `after` holds the rows of `before` with nothing changed but
/// statuses and owning tasks.
pub open spec fn same_times(after: Seq<TimeBlock>, before: Seq<TimeBlock>) -> bool {
    &&& after.len() == before.len()
    &&& forall|i: int|
        0 <= i < after.len() ==> {
            &&& (#[trigger] after[i]).id == before[i].id
            &&& after[i].workspace_id == before[i].workspace_id
            &&& after[i].start_time == before[i].start_time
            &&& after[i].end_time == before[i].end_time
            &&& after[i].status != BlockStatus::Unplugged
        }
}

/// Changing statuses and owning tasks keeps the properties that speak of
/// times alone.
pub proof fn lemma_same_times_keep(
    after: Seq<TimeBlock>,
    before: Seq<TimeBlock>,
    windows: Seq<UnpluggedTime>,
)
    requires
        same_times(after, before),
        forall|i: int| 0 <= i < before.len() ==> (#[trigger] before[i]).status
            != BlockStatus::Unplugged,
    ensures
        no_overlap(before) ==> no_overlap(after),
        avoids_windows(before, windows) ==> avoids_windows(after, windows),
        all_nonempty(before) ==> all_nonempty(after),
{
    if no_overlap(before) {
        assert forall|i: int, j: int|
            0 <= i < after.len() && 0 <= j < after.len() && i != j implies !blocks_overlap(
            #[trigger] after[i],
            #[trigger] after[j],
        ) by {
            assert(!blocks_overlap(before[i], before[j]));
        }
    }
    if avoids_windows(before, windows) {
        assert forall|i: int, k: int|
            0 <= i < after.len() && 0 <= k < windows.len() implies !block_hits_window(
            #[trigger] after[i],
            #[trigger] windows[k],
        ) by {
            assert(!block_hits_window(before[i], windows[k]));
        }
    }
    if all_nonempty(before) {
        assert forall|i: int| 0 <= i < after.len() implies (#[trigger] after[i]).start_time
            < after[i].end_time by {
            assert(before[i].start_time < before[i].end_time);
        }
    }
}

/// Setting the status of a block keeps the properties that speak of
/// times and ids, and keeps at most one block of a task being worked on
/// unless the block is set to being worked on while another block of its
/// task is.
pub proof fn lemma_update_block_status_keeps(t: Tables, block_id: i64, status: Seq<char>)
    requires
        t.wf(),
    ensures
        update_block_status_spec(t, block_id, status) matches Ok(after) ==> {
            &&& (blocks_have_tasks(t) ==> blocks_have_tasks(after))
            &&& (no_overlap(t.time_blocks) ==> no_overlap(after.time_blocks))
            &&& (avoids_windows(t.time_blocks, t.unplugged_times) ==> avoids_windows(
                after.time_blocks,
                after.unplugged_times,
            ))
            &&& (ids_follow_starts(t.time_blocks) ==> ids_follow_starts(after.time_blocks))
            &&& (all_nonempty(t.time_blocks) ==> all_nonempty(after.time_blocks))
            &&& (one_active_per_task(t.time_blocks) && (BlockStatus::parse_spec(status) != Some(
                BlockStatus::Now,
            ) || forall|j: int|
                0 <= j < t.time_blocks.len() && (#[trigger] t.time_blocks[j]).task_id
                    == t.time_blocks[crate::repository::block_position(
                    t.time_blocks,
                    block_id,
                    0,
                )].task_id && t.time_blocks[j].id != block_id ==> t.time_blocks[j].status
                    != BlockStatus::Now) ==> one_active_per_task(after.time_blocks))
        },
{
    match update_block_status_spec(t, block_id, status) {
        Ok(after) => {
            let p = crate::repository::block_position(t.time_blocks, block_id, 0);
            crate::repository::lemma_block_position(t.time_blocks, block_id, 0);
            let before = t.time_blocks;
            let now = after.time_blocks;
            assert forall|i: int| 0 <= i < before.len() implies (#[trigger] before[i]).status
                != BlockStatus::Unplugged by {
                assert(before[i].wf());
            }
            assert(same_times(now, before));
            lemma_same_times_keep(now, before, t.unplugged_times);
            if blocks_have_tasks(t) {
                assert forall|i: int| 0 <= i < now.len() implies (#[trigger] now[i]).task_id
                    is Some && now[i].task_id->0 < after.next_task_id by {
                    assert(before[i].task_id is Some);
                }
            }
            if ids_follow_starts(before) {
                assert forall|i: int, j: int|
                    0 <= i < now.len() && 0 <= j < now.len() && (#[trigger] now[i]).task_id == (
                    #[trigger] now[j]).task_id && now[i].id < now[j].id implies now[i].start_time
                    < now[j].start_time by {
                    assert(before[i].task_id == before[j].task_id);
                }
            }
            if one_active_per_task(before) && (BlockStatus::parse_spec(status) != Some(
                BlockStatus::Now,
            ) || forall|j: int|
                0 <= j < before.len() && (#[trigger] before[j]).task_id == before[p].task_id
                    && before[j].id != block_id ==> before[j].status != BlockStatus::Now) {
                assert forall|i: int, j: int|
                    0 <= i < now.len() && 0 <= j < now.len() && i != j && (
                    #[trigger] now[i]).task_id == (#[trigger] now[j]).task_id implies !(
                now[i].status == BlockStatus::Now && now[j].status == BlockStatus::Now) by {
                    assert(before[i].task_id == before[j].task_id);
                    if i < j {
                        assert(before[i].id < before[j].id);
                    } else {
                        assert(before[j].id < before[i].id);
                    }
                }
            }
        },
        Err(_) => {},
    }
}

/// Deleting a split task without its past keeps all five properties.
/// Keeping the past keeps the properties that speak of times alone, and
/// the other two when every block belongs to a task whose id has been
/// handed out.
pub proof fn lemma_split_deletion_keeps(t: Tables, task_id: i64, keep_past: bool)
    requires
        t.wf(),
    ensures
        split_deletion_spec(t, task_id, keep_past) matches Ok(after) ==> {
            &&& (no_overlap(t.time_blocks) ==> no_overlap(after.time_blocks))
            &&& (avoids_windows(t.time_blocks, t.unplugged_times) ==> avoids_windows(
                after.time_blocks,
                after.unplugged_times,
            ))
            &&& (all_nonempty(t.time_blocks) ==> all_nonempty(after.time_blocks))
            &&& (ids_follow_starts(t.time_blocks) && (!keep_past || blocks_have_tasks(t))
                ==> ids_follow_starts(after.time_blocks))
            &&& (one_active_per_task(t.time_blocks) && (!keep_past || blocks_have_tasks(t))
                ==> one_active_per_task(after.time_blocks))
            &&& (blocks_have_tasks(t) ==> blocks_have_tasks(after))
        },
{
    if !keep_past {
        lemma_delete_task_keeps(t, task_id);
    } else {
        match split_deletion_spec(t, task_id, keep_past) {
            Ok(after) => {
                let kept = t.time_blocks.filter(not_planned_of(task_id));
                lemma_filter_blocks_wf(t.time_blocks, t.next_block_id, not_planned_of(task_id));
                let origin = lemma_filter_draws(
                    t.time_blocks,
                    t.next_block_id,
                    not_planned_of(task_id),
                );
                lemma_drawn_rows_keep(kept, t.time_blocks, t.unplugged_times, origin);
                let now = after.time_blocks;
                assert(now == repointed(kept, task_id, t.next_task_id));
                assert forall|i: int| 0 <= i < kept.len() implies (#[trigger] kept[i]).status
                    != BlockStatus::Unplugged by {
                    assert(kept[i].wf());
                }
                assert(same_times(now, kept));
                lemma_same_times_keep(now, kept, t.unplugged_times);
                lemma_task_ids_below(t, task_id);
                if blocks_have_tasks(t) {
                    assert forall|i: int| 0 <= i < kept.len() implies (
                    #[trigger] kept[i]).task_id is Some && kept[i].task_id->0 < t.next_task_id by {
                        assert(t.time_blocks[origin(i)] == kept[i]);
                    }
                    assert forall|i: int| 0 <= i < now.len() implies (#[trigger] now[i]).task_id
                        is Some && now[i].task_id->0 < after.next_task_id && (kept[i].task_id
                        == Some(task_id) ==> now[i].task_id->0 == t.next_task_id + count_of_task(
                        kept,
                        task_id,
                        i,
                    )) && (kept[i].task_id != Some(task_id) ==> now[i].task_id == kept[i].task_id
                        && now[i].task_id->0 < t.next_task_id) by {
                        lemma_count_grows(kept, task_id, 0, i);
                        lemma_count_grows(kept, task_id, i, i + 1);
                        lemma_count_grows(kept, task_id, i + 1, kept.len() as int);
                        assert(kept[i].task_id is Some);
                    }
                    assert forall|i: int, j: int|
                        0 <= i < now.len() && 0 <= j < now.len() && i != j && (
                        #[trigger] now[i]).task_id == (
                        #[trigger] now[j]).task_id implies kept[i].task_id == kept[j].task_id
                        && kept[i].task_id != Some(task_id) by {
                        lemma_count_grows(kept, task_id, 0, i);
                        lemma_count_grows(kept, task_id, 0, j);
                        if i < j {
                            lemma_count_grows(kept, task_id, i, i + 1);
                            lemma_count_grows(kept, task_id, i + 1, j);
                        } else {
                            lemma_count_grows(kept, task_id, j, j + 1);
                            lemma_count_grows(kept, task_id, j + 1, i);
                        }
                    }
                    if ids_follow_starts(t.time_blocks) {
                        assert forall|i: int, j: int|
                            0 <= i < now.len() && 0 <= j < now.len() && (
                            #[trigger] now[i]).task_id == (#[trigger] now[j]).task_id && now[i].id
                                < now[j].id implies now[i].start_time < now[j].start_time by {
                            assert(i != j);
                            assert(kept[i].task_id == kept[j].task_id);
                        }
                    }
                    if one_active_per_task(t.time_blocks) {
                        assert forall|i: int, j: int|
                            0 <= i < now.len() && 0 <= j < now.len() && i != j && (
                            #[trigger] now[i]).task_id == (#[trigger] now[j]).task_id implies !(
                        now[i].status == BlockStatus::Now && now[j].status
                            == BlockStatus::Now) by {
                            assert(kept[i].task_id == kept[j].task_id);
                        }
                    }
                }
            },
            Err(_) => {},
        }
    }
}

/// Every block belongs to a task whose id has been handed out.
pub open spec fn blocks_have_tasks(t: Tables) -> bool {
    forall|i: int|
        0 <= i < t.time_blocks.len() ==> (#[trigger] t.time_blocks[i]).task_id is Some
            && t.time_blocks[i].task_id->0 < t.next_task_id
}

proof fn lemma_task_ids_below(t: Tables, task_id: i64)
    requires
        t.wf(),
        crate::repository::task_position(t.tasks, task_id, 0) < t.tasks.len(),
    ensures
        task_id < t.next_task_id,
{
    crate::repository::lemma_task_position(t.tasks, task_id, 0);
    let i = crate::repository::task_position(t.tasks, task_id, 0);
    assert(t.tasks[i].id < t.next_task_id);
}

/// The stretches the placer emits come one after the other: each ends
/// before any later one starts.
pub proof fn lemma_stretches_in_order(
    windows: Seq<UnpluggedTime>,
    ws: i64,
    base: int,
    cursor: int,
    stretches: Seq<(i64, i64)>,
    k: int,
    l: int,
)
    requires
        placement_ok(windows, ws, base, cursor, stretches),
        0 <= k < l < stretches.len(),
    ensures
        stretches[k].1 <= stretches[l].0,
        stretches[k].0 < stretches[l].0,
    decreases l - k,
{
    if k + 1 < l {
        lemma_stretches_in_order(windows, ws, base, cursor, stretches, k + 1, l);
        assert(stretches[k].1 <= stretches[k + 1].0);
        assert(stretches[k + 1].0 < stretches[k + 1].1);
    } else {
        assert(stretches[k].1 <= stretches[k + 1].0);
    }
    assert(stretches[k].0 < stretches[k].1);
}

/// Placing a task keeps every block non-empty, at most one block of a
/// task being worked on, and every block clear of the windows. It keeps
/// the blocks of the workspace from overlapping when none of them ends
/// after the start, and keeps ids in the order of starts when every
/// block of the task starts before the start.
pub proof fn lemma_schedule_keeps(
    t: Tables,
    ws: i64,
    task_id: i64,
    title: String,
    start: i64,
    remaining: int,
    urgent: bool,
)
    requires
        t.wf(),
        valid_instant(start as int),
    ensures
        schedule_spec(t, ws, task_id, title, start, remaining, urgent) matches Ok(after) ==> {
            &&& (all_nonempty(t.time_blocks) ==> all_nonempty(after.time_blocks))
            &&& (one_active_per_task(t.time_blocks) ==> one_active_per_task(after.time_blocks))
            &&& (avoids_windows(t.time_blocks, t.unplugged_times) ==> avoids_windows(
                after.time_blocks,
                after.unplugged_times,
            ))
            &&& (no_overlap(t.time_blocks) && (forall|i: int|
                0 <= i < t.time_blocks.len() && (#[trigger] t.time_blocks[i]).workspace_id == ws
                    ==> t.time_blocks[i].end_time <= start) ==> no_overlap(after.time_blocks))
            &&& (ids_follow_starts(t.time_blocks) && (forall|i: int|
                0 <= i < t.time_blocks.len() && (#[trigger] t.time_blocks[i]).task_id == Some(
                    task_id,
                ) ==> t.time_blocks[i].start_time < start) ==> ids_follow_starts(
                after.time_blocks,
            ))
            &&& (blocks_have_tasks(t) && task_id < t.next_task_id ==> blocks_have_tasks(after))
        },
{
    let base = day_start(start as int);
    lemma_placement(t.unplugged_times, ws, base, start as int, remaining);
    match schedule_spec(t, ws, task_id, title, start, remaining, urgent) {
        Ok(after) => {
            let stretches = place_spec(t.unplugged_times, ws, start as int, remaining)->0;
            let fresh = blocks_for(stretches, t.next_block_id, ws, task_id, title, urgent);
            let before = t.time_blocks;
            let now = after.time_blocks;
            let n = before.len() as int;
            assert forall|i: int| 0 <= i < now.len() implies (i < n ==> (#[trigger] now[i])
                == before[i]) && (i >= n ==> now[i] == fresh[i - n] && now[i].start_time
                == stretches[i - n].0 && now[i].end_time == stretches[i - n].1 && now[i].status
                == BlockStatus::Will && now[i].workspace_id == ws && now[i].task_id == Some(task_id)
                && now[i].id == t.next_block_id + (i - n) && start <= now[i].start_time
                < now[i].end_time && day_start(now[i].start_time as int) == base) by {
                if i >= n {
                    assert(stretches[i - n].0 < stretches[i - n].1);
                }
            }
            if all_nonempty(before) {
                assert forall|i: int| 0 <= i < now.len() implies (#[trigger] now[i]).start_time
                    < now[i].end_time by {
                    if i < n {
                        assert(before[i].start_time < before[i].end_time);
                    }
                }
            }
            if one_active_per_task(before) {
                assert forall|i: int, j: int|
                    0 <= i < now.len() && 0 <= j < now.len() && i != j && (
                    #[trigger] now[i]).task_id == (#[trigger] now[j]).task_id implies !(
                now[i].status == BlockStatus::Now && now[j].status == BlockStatus::Now) by {
                    if i < n && j < n {
                        assert(before[i].task_id == before[j].task_id);
                    }
                }
            }
            if avoids_windows(before, t.unplugged_times) {
                assert forall|i: int, k: int|
                    0 <= i < now.len() && 0 <= k < t.unplugged_times.len()
                    implies !block_hits_window(#[trigger] now[i], #[trigger] t.unplugged_times[k]) by {
                    if i < n {
                        assert(!block_hits_window(before[i], t.unplugged_times[k]));
                    } else {
                        assert(!window_overlaps(
                            t.unplugged_times[k],
                            ws,
                            base,
                            stretches[i - n].0 as int,
                            stretches[i - n].1 as int,
                        ));
                    }
                }
            }
            if no_overlap(before) && (forall|i: int|
                0 <= i < before.len() && (#[trigger] before[i]).workspace_id == ws
                    ==> before[i].end_time <= start) {
                assert forall|i: int, j: int|
                    0 <= i < now.len() && 0 <= j < now.len() && i != j implies !blocks_overlap(
                    #[trigger] now[i],
                    #[trigger] now[j],
                ) by {
                    if i < n && j < n {
                        assert(!blocks_overlap(before[i], before[j]));
                    } else if i >= n && j >= n {
                        if i < j {
                            lemma_stretches_in_order(
                                t.unplugged_times,
                                ws,
                                base,
                                start as int,
                                stretches,
                                i - n,
                                j - n,
                            );
                        } else {
                            lemma_stretches_in_order(
                                t.unplugged_times,
                                ws,
                                base,
                                start as int,
                                stretches,
                                j - n,
                                i - n,
                            );
                        }
                    } else if i < n {
                        if before[i].workspace_id == ws {
                            assert(before[i].end_time <= start);
                        }
                    } else {
                        if before[j].workspace_id == ws {
                            assert(before[j].end_time <= start);
                        }
                    }
                }
            }
            if ids_follow_starts(before) && (forall|i: int|
                0 <= i < before.len() && (#[trigger] before[i]).task_id == Some(task_id)
                    ==> before[i].start_time < start) {
                assert forall|i: int, j: int|
                    0 <= i < now.len() && 0 <= j < now.len() && (#[trigger] now[i]).task_id == (
                    #[trigger] now[j]).task_id && now[i].id < now[j].id implies now[i].start_time
                    < now[j].start_time by {
                    if i < n && j < n {
                        assert(before[i].task_id == before[j].task_id);
                    } else if i >= n && j >= n {
                        lemma_stretches_in_order(
                            t.unplugged_times,
                            ws,
                            base,
                            start as int,
                            stretches,
                            i - n,
                            j - n,
                        );
                    } else if i < n {
                        assert(before[i].task_id == Some(task_id));
                    } else {
                        assert(before[j].id < t.next_block_id);
                    }
                }
            }
            if blocks_have_tasks(t) && task_id < t.next_task_id {
                assert forall|i: int| 0 <= i < now.len() implies (#[trigger] now[i]).task_id is Some
                    && now[i].task_id->0 < after.next_task_id by {
                    if i < n {
                        assert(before[i].task_id is Some);
                    }
                }
            }
        },
        Err(_) => {},
    }
}

/// No block of a workspace ends after the start that `next_start` gives.
pub proof fn lemma_next_start_is_free(blocks: Seq<TimeBlock>, ws: i64, now: i64)
    requires
        forall|i: int| 0 <= i < blocks.len() ==> (#[trigger] blocks[i]).wf(),
    ensures
        now <= next_start(blocks, ws, now),
        forall|i: int|
            0 <= i < blocks.len() && (#[trigger] blocks[i]).workspace_id == ws
                ==> blocks[i].end_time <= next_start(blocks, ws, now),
{
    lemma_latest_end(blocks, ws);
    assert forall|i: int|
        0 <= i < blocks.len() && (#[trigger] blocks[i]).workspace_id == ws implies blocks[i].end_time
        <= next_start(blocks, ws, now) by {
        assert(blocks[i].wf());
        assert(counts_for_latest(blocks[i], ws));
    }
}

/// The start that `next_start` gives is an instant of the stored range.
pub proof fn lemma_next_start_valid(blocks: Seq<TimeBlock>, ws: i64, now: i64)
    requires
        forall|i: int| 0 <= i < blocks.len() ==> (#[trigger] blocks[i]).wf(),
        valid_instant(now as int),
    ensures
        valid_instant(next_start(blocks, ws, now) as int),
{
    lemma_latest_end(blocks, ws);
    match latest_end(blocks, ws) {
        Some(e) => {
            let i = choose|i: int|
                0 <= i < blocks.len() && counts_for_latest(#[trigger] blocks[i], ws)
                    && blocks[i].end_time == e;
            assert(blocks[i].wf());
        },
        None => {},
    }
}

/// Adding a task that is not urgent keeps the blocks of a workspace from
/// overlapping, every block clear of the windows and non-empty, and at
/// most one block of a task being worked on. It keeps ids in the order of
/// starts when every block belongs to a task whose id has been handed
/// out.
pub proof fn lemma_add_plain_task_keeps(t: Tables, input: AddTaskInput, now: i64)
    requires
        t.wf(),
        !input.is_urgent,
    ensures
        add_task_at_spec(t, input, now) matches Ok(after) ==> {
            &&& (no_overlap(t.time_blocks) ==> no_overlap(after.time_blocks))
            &&& (avoids_windows(t.time_blocks, t.unplugged_times) ==> avoids_windows(
                after.time_blocks,
                after.unplugged_times,
            ))
            &&& (all_nonempty(t.time_blocks) ==> all_nonempty(after.time_blocks))
            &&& (one_active_per_task(t.time_blocks) ==> one_active_per_task(after.time_blocks))
            &&& (blocks_have_tasks(t) ==> blocks_have_tasks(after))
            &&& (ids_follow_starts(t.time_blocks) && blocks_have_tasks(t) ==> ids_follow_starts(
                after.time_blocks,
            ))
        },
{
    match add_task_at_spec(t, input, now) {
        Ok(after) => {
            let task = crate::scheduler::requested_task(input, t.next_task_id);
            let stored = Tables {
                tasks: t.tasks.push(task),
                next_task_id: (t.next_task_id + 1) as i64,
                ..t
            };
            assert(blocks_have_tasks(t) ==> blocks_have_tasks(stored)) by {
                if blocks_have_tasks(t) {
                    assert forall|i: int| 0 <= i < stored.time_blocks.len() implies (
                    #[trigger] stored.time_blocks[i]).task_id is Some
                        && stored.time_blocks[i].task_id->0 < stored.next_task_id by {
                        assert(t.time_blocks[i].task_id is Some);
                    }
                }
            }
            if after != stored {
                assert(stored.wf()) by {
                    assert forall|i: int, j: int| 0 <= i < j < stored.tasks.len() implies (
                    #[trigger] stored.tasks[i]).id < (#[trigger] stored.tasks[j]).id by {
                        if j < t.tasks.len() {
                            assert(t.tasks[i].id < t.tasks[j].id);
                        } else {
                            assert(t.tasks[i].id < t.next_task_id);
                        }
                    }
                }
                let start = next_start(t.time_blocks, input.workspace_id, now);
                lemma_next_start_is_free(t.time_blocks, input.workspace_id, now);
                lemma_next_start_valid(t.time_blocks, input.workspace_id, now);
                lemma_schedule_keeps(
                    stored,
                    input.workspace_id,
                    task.id,
                    input.title,
                    start,
                    requested_minutes(input) as int,
                    false,
                );
                if blocks_have_tasks(t) {
                    assert forall|i: int|
                        0 <= i < t.time_blocks.len() implies (#[trigger] t.time_blocks[i]).task_id
                        != Some(task.id) by {
                        assert(t.time_blocks[i].task_id is Some);
                    }
                }
            }
        },
        Err(_) => {},
    }
}

/// Moving a task to the timeline keeps the blocks of a workspace from
/// overlapping, every block clear of the windows and non-empty, and at
/// most one block of a task being worked on. It keeps ids in the order of
/// starts when every block is non-empty and the blocks of the task all
/// belong to the workspace.
pub proof fn lemma_move_to_timeline_keeps(t: Tables, task_id: i64, ws: i64, now: i64)
    requires
        t.wf(),
    ensures
        move_to_timeline_spec(t, task_id, ws, now) matches Ok(after) ==> {
            &&& (no_overlap(t.time_blocks) ==> no_overlap(after.time_blocks))
            &&& (avoids_windows(t.time_blocks, t.unplugged_times) ==> avoids_windows(
                after.time_blocks,
                after.unplugged_times,
            ))
            &&& (all_nonempty(t.time_blocks) ==> all_nonempty(after.time_blocks))
            &&& (one_active_per_task(t.time_blocks) ==> one_active_per_task(after.time_blocks))
            &&& (blocks_have_tasks(t) ==> blocks_have_tasks(after))
            &&& (ids_follow_starts(t.time_blocks) && all_nonempty(t.time_blocks) && (forall|i: int|
                0 <= i < t.time_blocks.len() && (#[trigger] t.time_blocks[i]).task_id == Some(
                    task_id,
                ) ==> t.time_blocks[i].workspace_id == ws) ==> ids_follow_starts(
                after.time_blocks,
            ))
        },
{
    match move_to_timeline_spec(t, task_id, ws, now) {
        Ok(after) => {
            if after != t {
                let i = crate::repository::task_position(t.tasks, task_id, 0);
                crate::repository::lemma_task_position(t.tasks, task_id, 0);
                let start = next_start(t.time_blocks, ws, now);
                lemma_next_start_is_free(t.time_blocks, ws, now);
                lemma_next_start_valid(t.time_blocks, ws, now);
                lemma_schedule_keeps(
                    t,
                    ws,
                    task_id,
                    t.tasks[i].title,
                    start,
                    effective_minutes(t.tasks[i]) as int,
                    false,
                );
                assert(t.tasks[i].id < t.next_task_id);
                if all_nonempty(t.time_blocks) && (forall|i: int|
                    0 <= i < t.time_blocks.len() && (#[trigger] t.time_blocks[i]).task_id == Some(
                        task_id,
                    ) ==> t.time_blocks[i].workspace_id == ws) {
                    assert forall|k: int|
                        0 <= k < t.time_blocks.len() && (#[trigger] t.time_blocks[k]).task_id
                            == Some(task_id) implies t.time_blocks[k].start_time < start by {
                        assert(t.time_blocks[k].start_time < t.time_blocks[k].end_time);
                    }
                }
            }
        },
        Err(_) => {},
    }
}

/// Offering the inbox tasks from position `from` on to the timeline
/// keeps the blocks of a workspace from overlapping, every block clear of
/// the windows and non-empty, and at most one block of a task being
/// worked on. It keeps ids in the order of starts when none of the tasks
/// still to be offered has a block yet.
pub proof fn lemma_place_inbox_keeps(
    t: Tables,
    at_start: Seq<TimeBlock>,
    from: int,
    ws: i64,
    now: i64,
)
    requires
        t.wf(),
        valid_instant(now as int),
        0 <= from,
    ensures
        place_inbox(t, at_start, from, ws, now) matches Ok(after) ==> {
            &&& after.wf()
            &&& (no_overlap(t.time_blocks) ==> no_overlap(after.time_blocks))
            &&& (avoids_windows(t.time_blocks, t.unplugged_times) ==> avoids_windows(
                after.time_blocks,
                after.unplugged_times,
            ))
            &&& (all_nonempty(t.time_blocks) ==> all_nonempty(after.time_blocks))
            &&& (one_active_per_task(t.time_blocks) ==> one_active_per_task(after.time_blocks))
            &&& (blocks_have_tasks(t) ==> blocks_have_tasks(after))
            &&& (ids_follow_starts(t.time_blocks) && (forall|k: int|
                from <= k < t.tasks.len() && in_inbox(#[trigger] t.tasks[k], at_start, ws)
                    ==> !task_has_block(t.time_blocks, t.tasks[k].id)) ==> ids_follow_starts(
                after.time_blocks,
            ))
        },
    decreases t.tasks.len() - from,
{
    if from < t.tasks.len() {
        if in_inbox(t.tasks[from], at_start, ws) {
            let start = next_start(t.time_blocks, ws, now);
            let minutes = effective_minutes(t.tasks[from]);
            if !crosses_midnight(start as int, minutes as int) {
                lemma_next_start_is_free(t.time_blocks, ws, now);
                lemma_next_start_valid(t.time_blocks, ws, now);
                let id = t.tasks[from].id;
                let title = t.tasks[from].title;
                lemma_schedule_wf(t, ws, id, title, start, minutes as int, false);
                lemma_schedule_keeps(t, ws, id, title, start, minutes as int, false);
                match schedule_spec(t, ws, id, title, start, minutes as int, false) {
                    Ok(placed) => {
                        lemma_place_inbox_keeps(placed, at_start, from + 1, ws, now);
                        assert(t.tasks[from].id < t.next_task_id);
                        if ids_follow_starts(t.time_blocks) && (forall|k: int|
                            from <= k < t.tasks.len() && in_inbox(
                                #[trigger] t.tasks[k],
                                at_start,
                                ws,
                            ) ==> !task_has_block(t.time_blocks, t.tasks[k].id)) {
                            assert(!task_has_block(t.time_blocks, id));
                            assert forall|i: int|
                                0 <= i < t.time_blocks.len() && (
                                #[trigger] t.time_blocks[i]).task_id == Some(
                                    id,
                                ) implies t.time_blocks[i].start_time < start by {}
                            assert forall|k: int|
                                from + 1 <= k < placed.tasks.len() && in_inbox(
                                    #[trigger] placed.tasks[k],
                                    at_start,
                                    ws,
                                ) implies !task_has_block(placed.time_blocks, placed.tasks[k].id) by {
                                assert(!task_has_block(t.time_blocks, t.tasks[k].id));
                                assert(t.tasks[from].id < t.tasks[k].id);
                                if task_has_block(placed.time_blocks, placed.tasks[k].id) {
                                    let j = choose|j: int|
                                        0 <= j < placed.time_blocks.len() && (
                                        #[trigger] placed.time_blocks[j]).task_id == Some(
                                            placed.tasks[k].id,
                                        );
                                    if j < t.time_blocks.len() {
                                        assert(t.time_blocks[j] == placed.time_blocks[j]);
                                    }
                                }
                            }
                        }
                    },
                    Err(_) => {},
                }
            }
        } else {
            lemma_place_inbox_keeps(t, at_start, from + 1, ws, now);
        }
    }
}

/// Offering every inbox task of a workspace to the timeline keeps all
/// five properties.
pub proof fn lemma_move_all_to_timeline_keeps(t: Tables, ws: i64, now: i64)
    requires
        t.wf(),
    ensures
        move_all_to_timeline_spec(t, ws, now) matches Ok(after) ==> {
            &&& (no_overlap(t.time_blocks) ==> no_overlap(after.time_blocks))
            &&& (avoids_windows(t.time_blocks, t.unplugged_times) ==> avoids_windows(
                after.time_blocks,
                after.unplugged_times,
            ))
            &&& (all_nonempty(t.time_blocks) ==> all_nonempty(after.time_blocks))
            &&& (one_active_per_task(t.time_blocks) ==> one_active_per_task(after.time_blocks))
            &&& (ids_follow_starts(t.time_blocks) ==> ids_follow_starts(after.time_blocks))
            &&& (blocks_have_tasks(t) ==> blocks_have_tasks(after))
        },
{
    if valid_instant(now as int) {
        lemma_place_inbox_keeps(t, t.time_blocks, 0, ws, now);
    }
}

/// Whether `after` holds the rows of `before` with the same ids and
/// owning tasks and no block newly being worked on.
pub open spec fn no_new_active(after: Seq<TimeBlock>, before: Seq<TimeBlock>) -> bool {
    &&& after.len() == before.len()
    &&& forall|i: int|
        0 <= i < after.len() ==> {
            &&& (#[trigger] after[i]).id == before[i].id
            &&& after[i].task_id == before[i].task_id
            &&& (after[i].status == BlockStatus::Now ==> before[i].status == BlockStatus::Now)
        }
}

/// Rows that change without a block newly being worked on keep at most
/// one block of a task being worked on, and keep their tasks.
pub proof fn lemma_no_new_active_keeps(after: Tables, before: Tables)
    requires
        no_new_active(after.time_blocks, before.time_blocks),
        after.next_task_id >= before.next_task_id,
    ensures
        one_active_per_task(before.time_blocks) ==> one_active_per_task(after.time_blocks),
        blocks_have_tasks(before) ==> blocks_have_tasks(after),
{
    let a = after.time_blocks;
    let b = before.time_blocks;
    if one_active_per_task(b) {
        assert forall|i: int, j: int|
            0 <= i < a.len() && 0 <= j < a.len() && i != j && (#[trigger] a[i]).task_id == (
            #[trigger] a[j]).task_id implies !(a[i].status == BlockStatus::Now && a[j].status
            == BlockStatus::Now) by {
            assert(b[i].task_id == b[j].task_id);
        }
    }
    if blocks_have_tasks(before) {
        assert forall|i: int| 0 <= i < a.len() implies (#[trigger] a[i]).task_id is Some
            && a[i].task_id->0 < after.next_task_id by {
            assert(b[i].task_id is Some);
        }
    }
}

/// A shift that fits keeps every block non-empty, at most one block of a
/// task being worked on, and every block with its task.
pub proof fn lemma_shift_keeps(t: Tables, ws: i64, pivot: i64, delta: int)
    requires
        shift_fits(t.time_blocks, ws, pivot, delta),
    ensures
        all_nonempty(t.time_blocks) ==> all_nonempty(shift_blocks(t.time_blocks, ws, pivot, delta)),
        one_active_per_task(t.time_blocks) ==> one_active_per_task(
            shift_blocks(t.time_blocks, ws, pivot, delta),
        ),
        blocks_have_tasks(t) ==> blocks_have_tasks(
            Tables { time_blocks: shift_blocks(t.time_blocks, ws, pivot, delta), ..t },
        ),
{
    let after = shift_blocks(t.time_blocks, ws, pivot, delta);
    assert(no_new_active(after, t.time_blocks));
    lemma_no_new_active_keeps(Tables { time_blocks: after, ..t }, t);
    if all_nonempty(t.time_blocks) {
        assert forall|i: int| 0 <= i < after.len() implies (#[trigger] after[i]).start_time
            < after[i].end_time by {
            assert(t.time_blocks[i].start_time < t.time_blocks[i].end_time);
        }
    }
}

/// Adding an urgent task keeps at most one block of a task being worked
/// on and every block with its task. It keeps every block non-empty
/// unless the block being worked on starts at `now` or later.
pub proof fn lemma_add_urgent_task_keeps(t: Tables, input: AddTaskInput, now: i64)
    requires
        t.wf(),
        input.is_urgent,
    ensures
        add_task_at_spec(t, input, now) matches Ok(after) ==> {
            &&& (one_active_per_task(t.time_blocks) ==> one_active_per_task(after.time_blocks))
            &&& (blocks_have_tasks(t) ==> blocks_have_tasks(after))
            &&& (all_nonempty(t.time_blocks) && (active_position(
                t.time_blocks,
                input.workspace_id,
                0,
            ) < t.time_blocks.len() ==> t.time_blocks[active_position(
                t.time_blocks,
                input.workspace_id,
                0,
            )].start_time < now) ==> all_nonempty(after.time_blocks))
        },
{
    match add_task_at_spec(t, input, now) {
        Ok(after) => {
            let ws = input.workspace_id;
            let task = requested_task(input, t.next_task_id);
            let duration = requested_minutes(input);
            let stored = Tables {
                tasks: t.tasks.push(task),
                next_task_id: (t.next_task_id + 1) as i64,
                ..t
            };
            assert(no_new_active(stored.time_blocks, t.time_blocks));
            lemma_no_new_active_keeps(stored, t);
            if after != stored {
                assert(stored.wf()) by {
                    assert forall|i: int, j: int| 0 <= i < j < stored.tasks.len() implies (
                    #[trigger] stored.tasks[i]).id < (#[trigger] stored.tasks[j]).id by {
                        if j < t.tasks.len() {
                            assert(t.tasks[i].id < t.tasks[j].id);
                        } else {
                            assert(t.tasks[i].id < t.next_task_id);
                        }
                    }
                }
                let p = active_position(stored.time_blocks, ws, 0);
                lemma_active_position(stored.time_blocks, ws, 0);
                if p >= stored.time_blocks.len() {
                    lemma_schedule_wf(stored, ws, task.id, input.title, now, duration as int, true);
                    lemma_schedule_keeps(stored, ws, task.id, input.title, now, duration as int, true);
                    let placed = schedule_spec(
                        stored,
                        ws,
                        task.id,
                        input.title,
                        now,
                        duration as int,
                        true,
                    )->Ok_0;
                    lemma_shift_keeps(placed, ws, now, duration as int);
                } else {
                    let b = stored.time_blocks[p];
                    assert(b.wf());
                    let cut = Tables {
                        time_blocks: stored.time_blocks.update(p, truncated(b, now)),
                        ..stored
                    };
                    assert(no_new_active(cut.time_blocks, stored.time_blocks));
                    lemma_no_new_active_keeps(cut, stored);
                    assert forall|j: int| 0 <= j < cut.time_blocks.len() implies (
                    #[trigger] cut.time_blocks[j]).id == stored.time_blocks[j].id
                        && cut.time_blocks[j].wf() by {
                        assert(stored.time_blocks[j].wf());
                    }
                    lemma_same_ids_wf(stored.time_blocks, cut.time_blocks, stored.next_block_id);
                    if all_nonempty(t.time_blocks) && b.start_time < now {
                        assert forall|j: int| 0 <= j < cut.time_blocks.len() implies (
                        #[trigger] cut.time_blocks[j]).start_time < cut.time_blocks[j].end_time by {
                            assert(t.time_blocks[j].start_time < t.time_blocks[j].end_time);
                        }
                    }
                    lemma_schedule_wf(cut, ws, task.id, input.title, now, duration as int, true);
                    lemma_schedule_keeps(cut, ws, task.id, input.title, now, duration as int, true);
                    let placed = schedule_spec(
                        cut,
                        ws,
                        task.id,
                        input.title,
                        now,
                        duration as int,
                        true,
                    )->Ok_0;
                    lemma_shift_keeps(placed, ws, b.end_time, duration as int);
                    lemma_shift_wf(
                        placed.time_blocks,
                        placed.next_block_id,
                        ws,
                        b.end_time,
                        duration as int,
                    );
                    let shifted = Tables {
                        time_blocks: shift_blocks(
                            placed.time_blocks,
                            ws,
                            b.end_time,
                            duration as int,
                        ),
                        ..placed
                    };
                    if b.end_time - now > 0 {
                        let resume_at = placed_end(stored.unplugged_times, ws, now, duration as int);
                        lemma_schedule_keeps(
                            shifted,
                            ws,
                            b.task_id->0,
                            b.title,
                            resume_at as i64,
                            b.end_time - now,
                            b.is_urgent,
                        );
                        if blocks_have_tasks(t) {
                            assert(t.time_blocks[p].task_id->0 < t.next_task_id);
                        }
                    }
                }
            }
        },
        Err(_) => {},
    }
}

/// A transition keeps at most one block of a task being worked on and
/// every block with its task. It keeps every block non-empty when the
/// block ends after it starts also with its new end.
pub proof fn lemma_transition_keeps(t: Tables, input: TaskTransitionInput, now: i64)
    requires
        t.wf(),
    ensures
        process_transition_spec(t, input, now) matches Ok(after) ==> {
            &&& (one_active_per_task(t.time_blocks) ==> one_active_per_task(after.time_blocks))
            &&& (blocks_have_tasks(t) ==> blocks_have_tasks(after))
            &&& (all_nonempty(t.time_blocks) && t.time_blocks[block_position(
                t.time_blocks,
                input.block_id,
                0,
            )].start_time < transition_end(
                TransitionAction::parse_spec(input.action@)->0,
                t.time_blocks[block_position(t.time_blocks, input.block_id, 0)],
                extra_of(input),
                now,
            ) ==> all_nonempty(after.time_blocks))
        },
{
    match process_transition_spec(t, input, now) {
        Ok(after) => {
            let p = block_position(t.time_blocks, input.block_id, 0);
            lemma_block_position(t.time_blocks, input.block_id, 0);
            let before = t.time_blocks;
            let b = before[p];
            let action = TransitionAction::parse_spec(input.action@)->0;
            let end = transition_end(action, b, extra_of(input), now);
            let a = after.time_blocks;
            assert(b.wf());
            if action == TransitionAction::Delay {
                let stretched = before.update(p, TimeBlock { end_time: end as i64, ..b });
                assert(a == shift_blocks(stretched, b.workspace_id, b.end_time, end - b.end_time));
                assert forall|i: int| 0 <= i < a.len() implies (#[trigger] a[i]).id == before[i].id
                    && a[i].task_id == before[i].task_id && a[i].status == before[i].status && (
                i != p ==> a[i].end_time - a[i].start_time == before[i].end_time
                    - before[i].start_time) && (i == p ==> a[i].end_time - a[i].start_time == end
                    - b.start_time) by {
                    assert(a[i] == crate::shifter::shift_one(
                        stretched[i],
                        b.workspace_id,
                        b.end_time,
                        end - b.end_time,
                    ));
                }
            } else {
                let shifted = shift_blocks(before, b.workspace_id, b.end_time, end - b.end_time);
                let done = shifted.map_values(mark_done(b.task_id));
                assert(a == done.update(p, crate::transitioner::completed(
                    done[p],
                    end as i64,
                    input.review_memo,
                )));
                assert forall|i: int| 0 <= i < a.len() implies (#[trigger] a[i]).id == before[i].id
                    && a[i].task_id == before[i].task_id && (a[i].status == BlockStatus::Now
                    ==> before[i].status == BlockStatus::Now) && (i != p ==> a[i].end_time
                    - a[i].start_time == before[i].end_time - before[i].start_time) && (i == p
                    ==> a[i].end_time == end && (a[i].start_time == b.start_time || (
                a[i].start_time == b.start_time + (end - b.end_time) && b.start_time
                    >= b.end_time))) by {
                    assert(shifted[i] == crate::shifter::shift_one(
                        before[i],
                        b.workspace_id,
                        b.end_time,
                        end - b.end_time,
                    ));
                    assert(done[i] == crate::transitioner::done_if_of(shifted[i], b.task_id));
                }
            }
            assert(no_new_active(a, before));
            lemma_no_new_active_keeps(after, t);
            if all_nonempty(before) && b.start_time < end {
                assert forall|i: int| 0 <= i < a.len() implies (#[trigger] a[i]).start_time
                    < a[i].end_time by {
                    assert(before[i].start_time < before[i].end_time);
                }
            }
        },
        Err(_) => {},
    }
}

/// Laying blocks out anew keeps their ids, tasks and statuses, and keeps
/// every block non-empty when each block of the snapshot is.
pub proof fn lemma_reorder_from_keeps(
    blocks: Seq<TimeBlock>,
    snapshot: Seq<TimeBlock>,
    windows: Seq<UnpluggedTime>,
    ws: i64,
    ids: Seq<i64>,
    k: int,
    cursor: int,
)
    requires
        0 <= k,
        blocks.len() == snapshot.len(),
        crate::placer::windows_wf(windows),
        valid_instant(cursor),
    ensures
        reorder_from(blocks, snapshot, windows, ws, ids, k, cursor) matches Some(after) ==> {
            &&& after.len() == blocks.len()
            &&& forall|i: int|
                0 <= i < after.len() ==> {
                    &&& (#[trigger] after[i]).id == blocks[i].id
                    &&& after[i].task_id == blocks[i].task_id
                    &&& after[i].status == blocks[i].status
                    &&& after[i].workspace_id == blocks[i].workspace_id
                }
            &&& (all_nonempty(blocks) && all_nonempty(snapshot) ==> all_nonempty(after))
        },
    decreases ids.len() - k,
{
    if k < ids.len() {
        let p = open_position(snapshot, ws, ids[k], 0);
        lemma_open_position(snapshot, ws, ids[k], 0);
        if p >= snapshot.len() {
            lemma_reorder_from_keeps(blocks, snapshot, windows, ws, ids, k + 1, cursor);
        } else {
            let start = skip_windows(windows, ws, cursor, windows.len() as int);
            lemma_skip_windows(windows, ws, cursor, windows.len() as int);
            let end = start + snapshot[p].duration();
            if valid_instant(end) {
                let next = blocks.update(p, relaid(blocks[p], start as i64, end as i64));
                lemma_reorder_from_keeps(next, snapshot, windows, ws, ids, k + 1, end);
                match reorder_from(next, snapshot, windows, ws, ids, k + 1, end) {
                    Some(after) => {
                        assert forall|i: int| 0 <= i < after.len() implies (
                        #[trigger] after[i]).id == blocks[i].id && after[i].task_id
                            == blocks[i].task_id && after[i].status == blocks[i].status
                            && after[i].workspace_id == blocks[i].workspace_id by {
                            assert(after[i].id == next[i].id);
                        }
                        if all_nonempty(blocks) && all_nonempty(snapshot) {
                            assert(snapshot[p].start_time < snapshot[p].end_time);
                            assert forall|i: int| 0 <= i < next.len() implies (
                            #[trigger] next[i]).start_time < next[i].end_time by {
                                if i != p {
                                    assert(blocks[i].start_time < blocks[i].end_time);
                                }
                            }
                        }
                    },
                    None => {},
                }
            }
        }
    }
}

/// A reorder keeps every block non-empty, at most one block of a task
/// being worked on, and every block with its task.
pub proof fn lemma_reorder_keeps(t: Tables, ws: i64, ids: Seq<i64>)
    requires
        t.wf(),
    ensures
        reorder_spec(t, ws, ids) matches Ok(after) ==> {
            &&& (all_nonempty(t.time_blocks) ==> all_nonempty(after.time_blocks))
            &&& (one_active_per_task(t.time_blocks) ==> one_active_per_task(after.time_blocks))
            &&& (blocks_have_tasks(t) ==> blocks_have_tasks(after))
        },
{
    match reorder_spec(t, ws, ids) {
        Ok(after) => {
            match earliest_open_start(t.time_blocks, ws) {
                Some(first) => {
                    lemma_earliest_open_start(t.time_blocks, ws);
                    let w = choose|i: int|
                        0 <= i < t.time_blocks.len() && is_open_in(#[trigger] t.time_blocks[i], ws)
                            && t.time_blocks[i].start_time == first;
                    assert(t.time_blocks[w].wf());
                    lemma_reorder_from_keeps(
                        t.time_blocks,
                        t.time_blocks,
                        t.unplugged_times,
                        ws,
                        ids,
                        0,
                        first as int,
                    );
                    assert(no_new_active(after.time_blocks, t.time_blocks));
                    lemma_no_new_active_keeps(after, t);
                },
                None => {},
            }
        },
        Err(_) => {},
    }
}

/// A completion on time moves no block, so it keeps all five properties.
pub proof fn lemma_complete_on_time_keeps(t: Tables, input: TaskTransitionInput, now: i64)
    requires
        t.wf(),
        TransitionAction::parse_spec(input.action@) == Some(TransitionAction::CompleteOnTime),
    ensures
        process_transition_spec(t, input, now) matches Ok(after) ==> {
            &&& (no_overlap(t.time_blocks) ==> no_overlap(after.time_blocks))
            &&& (avoids_windows(t.time_blocks, t.unplugged_times) ==> avoids_windows(
                after.time_blocks,
                after.unplugged_times,
            ))
            &&& (ids_follow_starts(t.time_blocks) ==> ids_follow_starts(after.time_blocks))
            &&& (one_active_per_task(t.time_blocks) ==> one_active_per_task(after.time_blocks))
            &&& (all_nonempty(t.time_blocks) ==> all_nonempty(after.time_blocks))
        },
{
    match process_transition_spec(t, input, now) {
        Ok(after) => {
            let p = block_position(t.time_blocks, input.block_id, 0);
            lemma_block_position(t.time_blocks, input.block_id, 0);
            let before = t.time_blocks;
            let b = before[p];
            let a = after.time_blocks;
            let shifted = shift_blocks(before, b.workspace_id, b.end_time, 0);
            let done = shifted.map_values(mark_done(b.task_id));
            assert(a == done.update(p, crate::transitioner::completed(
                done[p],
                b.end_time,
                input.review_memo,
            )));
            assert forall|i: int| 0 <= i < a.len() implies (#[trigger] a[i]).id == before[i].id
                && a[i].task_id == before[i].task_id && a[i].workspace_id == before[i].workspace_id
                && a[i].start_time == before[i].start_time && a[i].end_time == before[i].end_time
                && a[i].status != BlockStatus::Unplugged && before[i].status
                != BlockStatus::Unplugged && (a[i].status == BlockStatus::Now ==> before[i].status
                == BlockStatus::Now) by {
                assert(before[i].wf());
                assert(shifted[i] == crate::shifter::shift_one(
                    before[i],
                    b.workspace_id,
                    b.end_time,
                    0,
                ));
                assert(done[i] == crate::transitioner::done_if_of(shifted[i], b.task_id));
            }
            assert(same_times(a, before));
            lemma_same_times_keep(a, before, t.unplugged_times);
            assert(no_new_active(a, before));
            lemma_no_new_active_keeps(after, t);
            if ids_follow_starts(before) {
                assert forall|i: int, j: int|
                    0 <= i < a.len() && 0 <= j < a.len() && (#[trigger] a[i]).task_id == (
                    #[trigger] a[j]).task_id && a[i].id < a[j].id implies a[i].start_time
                    < a[j].start_time by {
                    assert(before[i].task_id == before[j].task_id);
                }
            }
        },
        Err(_) => {},
    }
}

/// Whether the blocks of workspace `ws` lie around the block at position
/// `p`: each other one ends by the time that block starts, or is planned
/// and starts when that block ends or later.
pub open spec fn lies_around(blocks: Seq<TimeBlock>, p: int, ws: i64) -> bool {
    forall|j: int|
        0 <= j < blocks.len() && j != p && (#[trigger] blocks[j]).workspace_id == ws
            ==> blocks[j].end_time <= blocks[p].start_time || (blocks[j].status
            == BlockStatus::Will && blocks[j].start_time >= blocks[p].end_time)
}

/// Where a transition leaves each block: the block itself keeps its
/// start and gets its new end, the planned blocks of its workspace that
/// started at its planned end or later move by the difference, and the
/// other blocks stay. This holds of a block that is planned to end after
/// it starts.
pub proof fn lemma_transition_times(t: Tables, input: TaskTransitionInput, now: i64)
    requires
        t.wf(),
        process_transition_spec(t, input, now) is Ok,
        t.time_blocks[block_position(t.time_blocks, input.block_id, 0)].start_time
            < t.time_blocks[block_position(t.time_blocks, input.block_id, 0)].end_time,
    ensures
        ({
            let before = t.time_blocks;
            let a = process_transition_spec(t, input, now)->Ok_0.time_blocks;
            let p = block_position(before, input.block_id, 0);
            let b = before[p];
            let end = transition_end(
                TransitionAction::parse_spec(input.action@)->0,
                b,
                extra_of(input),
                now,
            );
            let delta = end - b.end_time;
            &&& 0 <= p < before.len()
            &&& a.len() == before.len()
            &&& forall|i: int|
                0 <= i < a.len() ==> {
                    &&& (#[trigger] a[i]).id == before[i].id
                    &&& a[i].task_id == before[i].task_id
                    &&& a[i].workspace_id == before[i].workspace_id
                    &&& a[i].status != BlockStatus::Unplugged
                    &&& (i == p ==> a[i].start_time == b.start_time && a[i].end_time == end)
                    &&& (i != p && is_shifted(before[i], b.workspace_id, b.end_time)
                        ==> a[i].start_time == before[i].start_time + delta && a[i].end_time
                        == before[i].end_time + delta)
                    &&& (i != p && !is_shifted(before[i], b.workspace_id, b.end_time)
                        ==> a[i].start_time == before[i].start_time && a[i].end_time
                        == before[i].end_time)
                }
        }),
{
    let after = process_transition_spec(t, input, now)->Ok_0;
    let p = block_position(t.time_blocks, input.block_id, 0);
    lemma_block_position(t.time_blocks, input.block_id, 0);
    let before = t.time_blocks;
    let b = before[p];
    let ws = b.workspace_id;
    let action = TransitionAction::parse_spec(input.action@)->0;
    let end = transition_end(action, b, extra_of(input), now);
    let delta = end - b.end_time;
    let a = after.time_blocks;
    assert(b.wf());
    assert forall|i: int| 0 <= i < a.len() implies (#[trigger] a[i]).id == before[i].id
        && a[i].task_id == before[i].task_id && a[i].workspace_id == before[i].workspace_id
        && a[i].status != BlockStatus::Unplugged && (i == p ==> a[i].start_time == b.start_time
        && a[i].end_time == end) && (i != p && is_shifted(before[i], ws, b.end_time)
        ==> a[i].start_time == before[i].start_time + delta && a[i].end_time == before[i].end_time
        + delta) && (i != p && !is_shifted(before[i], ws, b.end_time) ==> a[i].start_time
        == before[i].start_time && a[i].end_time == before[i].end_time) by {
        assert(before[i].wf());
        if action == TransitionAction::Delay {
            let stretched = before.update(p, TimeBlock { end_time: end as i64, ..b });
            assert(a[i] == crate::shifter::shift_one(stretched[i], ws, b.end_time, delta));
        } else {
            let shifted = shift_blocks(before, ws, b.end_time, delta);
            let done = shifted.map_values(mark_done(b.task_id));
            assert(a == done.update(p, crate::transitioner::completed(
                done[p],
                end as i64,
                input.review_memo,
            )));
            assert(shifted[i] == crate::shifter::shift_one(before[i], ws, b.end_time, delta));
            assert(done[i] == crate::transitioner::done_if_of(shifted[i], b.task_id));
        }
    }
}

/// A transition keeps the blocks of a workspace from overlapping when
/// they are non-empty and lie around the block, and the block does not
/// end before it starts with its new end.
pub proof fn lemma_transition_keeps_no_overlap(t: Tables, input: TaskTransitionInput, now: i64)
    requires
        t.wf(),
        no_overlap(t.time_blocks),
        all_nonempty(t.time_blocks),
        process_transition_spec(t, input, now) is Ok,
        lies_around(
            t.time_blocks,
            block_position(t.time_blocks, input.block_id, 0),
            t.time_blocks[block_position(t.time_blocks, input.block_id, 0)].workspace_id,
        ),
        t.time_blocks[block_position(t.time_blocks, input.block_id, 0)].start_time
            <= transition_end(
            TransitionAction::parse_spec(input.action@)->0,
            t.time_blocks[block_position(t.time_blocks, input.block_id, 0)],
            extra_of(input),
            now,
        ),
    ensures
        no_overlap(process_transition_spec(t, input, now)->Ok_0.time_blocks),
{
    let after = process_transition_spec(t, input, now)->Ok_0;
    let p = block_position(t.time_blocks, input.block_id, 0);
    let before = t.time_blocks;
    let b = before[p];
    let ws = b.workspace_id;
    let a = after.time_blocks;
    lemma_block_position(t.time_blocks, input.block_id, 0);
    assert(b.start_time < b.end_time);
    lemma_transition_times(t, input, now);
    assert forall|i: int, j: int|
        0 <= i < a.len() && 0 <= j < a.len() && i != j implies !blocks_overlap(
        #[trigger] a[i],
        #[trigger] a[j],
    ) by {
        assert(!blocks_overlap(before[i], before[j]));
        assert(before[i].start_time < before[i].end_time);
        assert(before[j].start_time < before[j].end_time);
        assert(before[i].wf());
        assert(before[j].wf());
        if a[i].workspace_id == a[j].workspace_id {
            if a[i].workspace_id == ws {
                if i != p {
                    assert(before[i].end_time <= b.start_time || (before[i].status
                        == BlockStatus::Will && before[i].start_time >= b.end_time));
                }
                if j != p {
                    assert(before[j].end_time <= b.start_time || (before[j].status
                        == BlockStatus::Will && before[j].start_time >= b.end_time));
                }
            }
        }
    }
}

/// Whether an urgent task preempts cleanly at `now`: a block of the
/// workspace is being worked on, `now` falls after its start and before
/// its planned end, the urgent task takes some minutes, and the urgent
/// task and the rest of the preempted block are each placed in one piece
/// where the placement starts.
pub open spec fn preempts_cleanly(t: Tables, input: AddTaskInput, now: i64) -> bool {
    let p = active_position(t.time_blocks, input.workspace_id, 0);
    let d = requested_minutes(input);
    &&& input.is_urgent
    &&& add_task_at_spec(t, input, now) is Ok
    &&& add_task_at_spec(t, input, now)->Ok_0.time_blocks != t.time_blocks
    &&& p < t.time_blocks.len()
    &&& t.time_blocks[p].start_time < now < t.time_blocks[p].end_time
    &&& d > 0
    &&& place_spec(t.unplugged_times, input.workspace_id, now as int, d as int) == Some(
        seq![(now, (now + d) as i64)],
    )
    &&& place_spec(
        t.unplugged_times,
        input.workspace_id,
        now + d,
        t.time_blocks[p].end_time - now,
    ) == Some(seq![((now + d) as i64, (t.time_blocks[p].end_time + d) as i64)])
}

/// Where a clean preemption leaves each block: the preempted block ends
/// at `now`, the planned blocks of the workspace that started at its
/// planned end or later move by the urgent duration, the other blocks
/// stay, and two blocks are new: the urgent one from `now`, and behind
/// it the rest of the preempted block.
pub proof fn lemma_clean_preemption_times(t: Tables, input: AddTaskInput, now: i64)
    requires
        t.wf(),
        preempts_cleanly(t, input, now),
    ensures
        ({
            let before = t.time_blocks;
            let n = before.len() as int;
            let a = add_task_at_spec(t, input, now)->Ok_0.time_blocks;
            let p = active_position(before, input.workspace_id, 0);
            let b = before[p];
            let d = requested_minutes(input);
            &&& 0 <= p < n
            &&& a.len() == n + 2
            &&& forall|i: int|
                0 <= i < n ==> {
                    &&& (#[trigger] a[i]).id == before[i].id
                    &&& a[i].task_id == before[i].task_id
                    &&& a[i].workspace_id == before[i].workspace_id
                    &&& (i == p ==> a[i].start_time == b.start_time && a[i].end_time == now)
                    &&& (i != p && is_shifted(before[i], input.workspace_id, b.end_time)
                        ==> a[i].start_time == before[i].start_time + d && a[i].end_time
                        == before[i].end_time + d)
                    &&& (i != p && !is_shifted(before[i], input.workspace_id, b.end_time)
                        ==> a[i].start_time == before[i].start_time && a[i].end_time
                        == before[i].end_time)
                }
            &&& a[n].id == t.next_block_id
            &&& a[n].task_id == Some(t.next_task_id)
            &&& a[n].workspace_id == input.workspace_id
            &&& a[n].start_time == now
            &&& a[n].end_time == now + d
            &&& a[n + 1].id == t.next_block_id + 1
            &&& a[n + 1].task_id == b.task_id
            &&& a[n + 1].workspace_id == input.workspace_id
            &&& a[n + 1].start_time == now + d
            &&& a[n + 1].end_time == b.end_time + d
        }),
{
    let ws = input.workspace_id;
    let before = t.time_blocks;
    let n = before.len() as int;
    let p = active_position(before, ws, 0);
    lemma_active_position(before, ws, 0);
    let b = before[p];
    assert(b.wf());
    let d = requested_minutes(input);
    let task = requested_task(input, t.next_task_id);
    let stored = Tables { tasks: t.tasks.push(task), next_task_id: (t.next_task_id + 1) as i64, ..t };
    let after = add_task_at_spec(t, input, now)->Ok_0;
    let cut = Tables { time_blocks: before.update(p, truncated(b, now)), ..stored };
    let urgent_stretches = seq![(now, (now + d) as i64)];
    let urgent_blocks = blocks_for(urgent_stretches, cut.next_block_id, ws, task.id, input.title, true);
    let placed = schedule_spec(cut, ws, task.id, input.title, now, d as int, true)->Ok_0;
    assert(placed.time_blocks == cut.time_blocks + urgent_blocks);
    let shifted_blocks = shift_blocks(placed.time_blocks, ws, b.end_time, d as int);
    let shifted = Tables { time_blocks: shifted_blocks, ..placed };
    let resume_at = placed_end(t.unplugged_times, ws, now, d as int);
    assert(urgent_stretches.last() == (now, (now + d) as i64));
    assert(resume_at == now + d);
    let resumed_stretches = seq![((now + d) as i64, (b.end_time + d) as i64)];
    let resumed_blocks = blocks_for(
        resumed_stretches,
        shifted.next_block_id,
        ws,
        b.task_id->0,
        b.title,
        b.is_urgent,
    );
    let a = after.time_blocks;
    assert(a == shifted_blocks + resumed_blocks);
    assert(valid_instant(now + d)) by {
        lemma_placement(t.unplugged_times, ws, day_start(now as int), now as int, d as int);
        assert(urgent_stretches[0].1 <= crate::clock::INSTANT_MAX);
    }
    assert(valid_instant(b.end_time + d)) by {
        lemma_placement(t.unplugged_times, ws, day_start(now + d), now + d, b.end_time - now);
        assert(resumed_stretches[0].1 <= crate::clock::INSTANT_MAX);
    }
    assert forall|i: int| 0 <= i < n implies (#[trigger] a[i]).id == before[i].id && a[i].task_id
        == before[i].task_id && a[i].workspace_id == before[i].workspace_id && (i == p
        ==> a[i].start_time == b.start_time && a[i].end_time == now) && (i != p && is_shifted(
        before[i],
        ws,
        b.end_time,
    ) ==> a[i].start_time == before[i].start_time + d && a[i].end_time == before[i].end_time + d)
        && (i != p && !is_shifted(before[i], ws, b.end_time) ==> a[i].start_time
        == before[i].start_time && a[i].end_time == before[i].end_time) by {
        assert(before[i].wf());
        assert(placed.time_blocks[i] == cut.time_blocks[i]);
        assert(shifted_blocks[i] == crate::shifter::shift_one(
            placed.time_blocks[i],
            ws,
            b.end_time,
            d as int,
        ));
    }
    assert(placed.time_blocks[n] == urgent_blocks[0]);
    assert(shifted_blocks[n] == crate::shifter::shift_one(
        placed.time_blocks[n],
        ws,
        b.end_time,
        d as int,
    ));
    assert(a[n] == shifted_blocks[n]);
    assert(a[n + 1] == resumed_blocks[0]);
}

/// Adding an urgent task keeps the blocks of a workspace from
/// overlapping when it preempts cleanly and the blocks are non-empty and
/// lie around the block that is being worked on.
pub proof fn lemma_add_urgent_task_keeps_no_overlap(t: Tables, input: AddTaskInput, now: i64)
    requires
        t.wf(),
        no_overlap(t.time_blocks),
        all_nonempty(t.time_blocks),
        preempts_cleanly(t, input, now),
        lies_around(
            t.time_blocks,
            active_position(t.time_blocks, input.workspace_id, 0),
            input.workspace_id,
        ),
    ensures
        no_overlap(add_task_at_spec(t, input, now)->Ok_0.time_blocks),
{
    let ws = input.workspace_id;
    let before = t.time_blocks;
    let n = before.len() as int;
    let p = active_position(before, ws, 0);
    let b = before[p];
    let a = add_task_at_spec(t, input, now)->Ok_0.time_blocks;
    lemma_clean_preemption_times(t, input, now);
    assert forall|i: int, j: int|
        0 <= i < a.len() && 0 <= j < a.len() && i != j implies !blocks_overlap(
        #[trigger] a[i],
        #[trigger] a[j],
    ) by {
        if i < n {
            assert(before[i].start_time < before[i].end_time);
            assert(before[i].wf());
            if i != p && before[i].workspace_id == ws {
                assert(before[i].end_time <= b.start_time || (before[i].status
                    == BlockStatus::Will && before[i].start_time >= b.end_time));
            }
        }
        if j < n {
            assert(before[j].start_time < before[j].end_time);
            assert(before[j].wf());
            if j != p && before[j].workspace_id == ws {
                assert(before[j].end_time <= b.start_time || (before[j].status
                    == BlockStatus::Will && before[j].start_time >= b.end_time));
            }
        }
        if i < n && j < n {
            assert(!blocks_overlap(before[i], before[j]));
        }
    }
}

/// Whether the blocks of one task all belong to one workspace.
pub open spec fn tasks_stay_in_workspace(blocks: Seq<TimeBlock>) -> bool {
    forall|i: int, j: int|
        0 <= i < blocks.len() && 0 <= j < blocks.len() && (#[trigger] blocks[i]).task_id == (
        #[trigger] blocks[j]).task_id ==> blocks[i].workspace_id == blocks[j].workspace_id
}

/// A transition keeps ids in the order of starts when the blocks are
/// non-empty and lie around the block, the blocks of one task all belong
/// to one workspace, and the block ends after it starts also with its new
/// end.
pub proof fn lemma_transition_keeps_order(t: Tables, input: TaskTransitionInput, now: i64)
    requires
        t.wf(),
        ids_follow_starts(t.time_blocks),
        all_nonempty(t.time_blocks),
        tasks_stay_in_workspace(t.time_blocks),
        process_transition_spec(t, input, now) is Ok,
        lies_around(
            t.time_blocks,
            block_position(t.time_blocks, input.block_id, 0),
            t.time_blocks[block_position(t.time_blocks, input.block_id, 0)].workspace_id,
        ),
        t.time_blocks[block_position(t.time_blocks, input.block_id, 0)].start_time
            < transition_end(
            TransitionAction::parse_spec(input.action@)->0,
            t.time_blocks[block_position(t.time_blocks, input.block_id, 0)],
            extra_of(input),
            now,
        ),
    ensures
        ids_follow_starts(process_transition_spec(t, input, now)->Ok_0.time_blocks),
{
    let after = process_transition_spec(t, input, now)->Ok_0;
    let p = block_position(t.time_blocks, input.block_id, 0);
    let before = t.time_blocks;
    let b = before[p];
    let ws = b.workspace_id;
    let a = after.time_blocks;
    lemma_block_position(t.time_blocks, input.block_id, 0);
    assert(b.start_time < b.end_time);
    lemma_transition_times(t, input, now);
    assert forall|i: int, j: int|
        0 <= i < a.len() && 0 <= j < a.len() && (#[trigger] a[i]).task_id == (
        #[trigger] a[j]).task_id && a[i].id < a[j].id implies a[i].start_time < a[j].start_time by {
        assert(before[i].task_id == before[j].task_id);
        assert(before[i].workspace_id == before[j].workspace_id);
        assert(before[i].start_time < before[j].start_time);
        assert(before[i].start_time < before[i].end_time);
        assert(before[j].start_time < before[j].end_time);
        assert(before[i].wf());
        assert(before[j].wf());
        if before[i].workspace_id == ws {
            if i != p {
                assert(before[i].end_time <= b.start_time || (before[i].status
                    == BlockStatus::Will && before[i].start_time >= b.end_time));
            }
            if j != p {
                assert(before[j].end_time <= b.start_time || (before[j].status
                    == BlockStatus::Will && before[j].start_time >= b.end_time));
            }
        }
    }
}

/// Adding an urgent task keeps ids in the order of starts when it
/// preempts cleanly, the blocks are non-empty and lie around the block
/// that is being worked on, every other block of that block's task ends
/// by the time it starts, and the blocks of one task all belong to one
/// workspace and each to a task whose id has been handed out.
pub proof fn lemma_add_urgent_task_keeps_order(t: Tables, input: AddTaskInput, now: i64)
    requires
        t.wf(),
        ids_follow_starts(t.time_blocks),
        all_nonempty(t.time_blocks),
        tasks_stay_in_workspace(t.time_blocks),
        blocks_have_tasks(t),
        preempts_cleanly(t, input, now),
        lies_around(
            t.time_blocks,
            active_position(t.time_blocks, input.workspace_id, 0),
            input.workspace_id,
        ),
        forall|j: int|
            0 <= j < t.time_blocks.len() && j != active_position(
                t.time_blocks,
                input.workspace_id,
                0,
            ) && (#[trigger] t.time_blocks[j]).task_id == t.time_blocks[active_position(
                t.time_blocks,
                input.workspace_id,
                0,
            )].task_id ==> t.time_blocks[j].end_time <= t.time_blocks[active_position(
                t.time_blocks,
                input.workspace_id,
                0,
            )].start_time,
    ensures
        ids_follow_starts(add_task_at_spec(t, input, now)->Ok_0.time_blocks),
{
    let ws = input.workspace_id;
    let before = t.time_blocks;
    let n = before.len() as int;
    let p = active_position(before, ws, 0);
    let b = before[p];
    let a = add_task_at_spec(t, input, now)->Ok_0.time_blocks;
    lemma_clean_preemption_times(t, input, now);
    assert forall|i: int, j: int|
        0 <= i < a.len() && 0 <= j < a.len() && (#[trigger] a[i]).task_id == (
        #[trigger] a[j]).task_id && a[i].id < a[j].id implies a[i].start_time < a[j].start_time by {
        if i < n {
            assert(before[i].start_time < before[i].end_time);
            assert(before[i].wf());
            assert(before[i].id < t.next_block_id);
            assert(before[i].task_id->0 < t.next_task_id);
            if i != p && before[i].workspace_id == ws {
                assert(before[i].end_time <= b.start_time || (before[i].status
                    == BlockStatus::Will && before[i].start_time >= b.end_time));
            }
        }
        if j < n {
            assert(before[j].start_time < before[j].end_time);
            assert(before[j].wf());
            assert(before[j].id < t.next_block_id);
            assert(before[j].task_id->0 < t.next_task_id);
            if j != p && before[j].workspace_id == ws {
                assert(before[j].end_time <= b.start_time || (before[j].status
                    == BlockStatus::Will && before[j].start_time >= b.end_time));
            }
        }
        if i < n && j < n {
            assert(before[i].task_id == before[j].task_id);
            assert(before[i].workspace_id == before[j].workspace_id);
            assert(before[i].start_time < before[j].start_time);
        }
        if i < n && j == n + 1 {
            assert(before[i].task_id == b.task_id);
            if i != p {
                assert(before[i].end_time <= b.start_time);
            }
        }
    }
}

} // verus!
