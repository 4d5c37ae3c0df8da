//! The scheduler: placing a task on the timeline, and adding a task, with
//! the preemption that an urgent task causes.

use vstd::prelude::*;
use crate::clock::crosses_midnight;
use crate::clock::day_start;
use crate::clock::is_crossing_midnight;
use crate::clock::is_clock_reading;
use crate::clock::is_valid_instant;
use crate::clock::INSTANT_MIN;
use crate::clock::now_instant;
use crate::clock::valid_instant;
use crate::error::AppError;
use crate::error::ErrorKind;
use crate::error::internal;
use crate::error::invalid_input;
use crate::models::AddTaskInput;
use crate::models::BlockStatus;
use crate::models::Task;
use crate::models::TimeBlock;
use crate::models::UnpluggedTime;
use crate::models::copy_blocks;
use crate::placer::lemma_placement;
use crate::placer::place_intervals;
use crate::placer::place_spec;
use crate::repository::Repository;
use crate::repository::Tables;
use crate::repository::active_position;
use crate::repository::ends_as;
use crate::repository::find_active;
use crate::repository::latest_end;
use crate::repository::lemma_active_position;
use crate::repository::lemma_latest_end;
use crate::repository::read_latest_end;
use crate::shifter::lemma_shift_wf;
use crate::shifter::shift_future_spec;
use crate::shifter::shift_rows;

verus! {

/// The planned block that realises one stretch of a task.
pub open spec fn new_block(
    id: i64,
    ws: i64,
    task_id: i64,
    title: String,
    stretch: (i64, i64),
    urgent: bool,
) -> TimeBlock {
    TimeBlock {
        id,
        task_id: Some(task_id),
        workspace_id: ws,
        title,
        start_time: stretch.0,
        end_time: stretch.1,
        status: BlockStatus::Will,
        review_memo: None,
        is_urgent: urgent,
    }
}

/// The planned blocks that realise the stretches of a task, with ids
/// counted up from `first_id`.
pub open spec fn blocks_for(
    stretches: Seq<(i64, i64)>,
    first_id: i64,
    ws: i64,
    task_id: i64,
    title: String,
    urgent: bool,
) -> Seq<TimeBlock> {
    Seq::new(
        stretches.len(),
        |k: int| new_block((first_id + k) as i64, ws, task_id, title, stretches[k], urgent),
    )
}

/// The tables after a task has been placed from `start` for `remaining`
/// minutes: the placer's stretches become planned blocks at the end of
/// the block table. Fails with an invalid-input error when a stretch
/// would leave the stored range, and with an internal error when the
/// block ids run out.
pub open spec fn schedule_spec(
    t: Tables,
    ws: i64,
    task_id: i64,
    title: String,
    start: i64,
    remaining: int,
    urgent: bool,
) -> Result<Tables, ErrorKind> {
    match place_spec(t.unplugged_times, ws, start as int, remaining) {
        Some(stretches) => if t.next_block_id + stretches.len() <= i64::MAX {
            Ok(
                Tables {
                    time_blocks: t.time_blocks + blocks_for(
                        stretches,
                        t.next_block_id,
                        ws,
                        task_id,
                        title,
                        urgent,
                    ),
                    next_block_id: (t.next_block_id + stretches.len()) as i64,
                    ..t
                },
            )
        } else {
            Err(ErrorKind::Internal)
        },
        None => Err(ErrorKind::InvalidInput),
    }
}

/// Where the placer's last stretch ends; when it emits none, the start
/// moved by the duration.
pub open spec fn placed_end(
    windows: Seq<UnpluggedTime>,
    ws: i64,
    start: i64,
    remaining: int,
) -> int {
    match place_spec(windows, ws, start as int, remaining) {
        Some(stretches) => if stretches.len() > 0 {
            stretches.last().1 as int
        } else {
            start + remaining
        },
        None => start + remaining,
    }
}

/// Placing a task keeps the tables well formed.
pub proof fn lemma_schedule_wf(
    t: Tables,
    ws: i64,
    task_id: i64,
    title: String,
    start: i64,
    remaining: int,
    urgent: bool,
)
    requires
        t.wf(),
        valid_instant(start as int),
    ensures
        schedule_spec(t, ws, task_id, title, start, remaining, urgent) matches Ok(after)
            ==> after.wf(),
{
    lemma_placement(t.unplugged_times, ws, day_start(start as int), start as int, remaining);
    match schedule_spec(t, ws, task_id, title, start, remaining, urgent) {
        Ok(after) => {
            let stretches = place_spec(t.unplugged_times, ws, start as int, remaining)->0;
            let fresh = blocks_for(stretches, t.next_block_id, ws, task_id, title, urgent);
            let all = after.time_blocks;
            assert forall|i: int| 0 <= i < all.len() implies (#[trigger] all[i]).wf() && all[i].id
                < after.next_block_id && (i < t.time_blocks.len() ==> all[i] == t.time_blocks[i])
                && (i >= t.time_blocks.len() ==> all[i].id == t.next_block_id + (i
                - t.time_blocks.len())) by {
                if i < t.time_blocks.len() {
                    assert(t.time_blocks[i].wf());
                } else {
                    let k = i - t.time_blocks.len();
                    assert(all[i] == fresh[k]);
                    assert(stretches[k].0 < stretches[k].1);
                }
            }
            assert forall|i: int, j: int| 0 <= i < j < all.len() implies (#[trigger] all[i]).id < (
            #[trigger] all[j]).id by {
                if j < t.time_blocks.len() {
                    assert(t.time_blocks[i].id < t.time_blocks[j].id);
                } else if i < t.time_blocks.len() {
                    assert(t.time_blocks[i].id < t.next_block_id);
                }
            }
        },
        Err(_) => {},
    }
}

/// Appends the planned blocks of the stretches to the rows.
fn append_rows(
    blocks: &mut Vec<TimeBlock>,
    next_id: &mut i64,
    stretches: &Vec<(i64, i64)>,
    ws: i64,
    task_id: i64,
    title: &String,
    urgent: bool,
) -> (ok: bool)
    ensures
        ok == (*old(next_id) + stretches.len() <= i64::MAX),
        ok ==> final(blocks)@ == old(blocks)@ + blocks_for(
            stretches@,
            *old(next_id),
            ws,
            task_id,
            *title,
            urgent,
        ),
        ok ==> *final(next_id) == *old(next_id) + stretches.len(),
{
    let n = stretches.len();
    let mut k: usize = 0;
    while k < n
        invariant
            n == stretches.len(),
            k <= n,
            *next_id == *old(next_id) + k,
            blocks.len() == old(blocks).len() + k,
            forall|j: int| 0 <= j < old(blocks).len() ==> blocks[j] == old(blocks)[j],
            forall|j: int|
                old(blocks).len() <= j < old(blocks).len() + k ==> #[trigger] blocks[j]
                    == new_block(
                    (*old(next_id) + (j - old(blocks).len())) as i64,
                    ws,
                    task_id,
                    *title,
                    stretches[j - old(blocks).len()],
                    urgent,
                ),
        decreases n - k,
    {
        if *next_id == i64::MAX {
            return false;
        }
        let stretch = stretches[k];
        blocks.push(
            TimeBlock {
                id: *next_id,
                task_id: Some(task_id),
                workspace_id: ws,
                title: title.clone(),
                start_time: stretch.0,
                end_time: stretch.1,
                status: BlockStatus::Will,
                review_memo: None,
                is_urgent: urgent,
            },
        );
        *next_id = *next_id + 1;
        k = k + 1;
    }
    assert(blocks@ =~= old(blocks)@ + blocks_for(
        stretches@,
        *old(next_id),
        ws,
        task_id,
        *title,
        urgent,
    ));
    true
}

/// The tables a working copy of the block rows stands for.
pub open spec fn with_blocks(t: Tables, blocks: Seq<TimeBlock>, next_block_id: i64) -> Tables {
    Tables { time_blocks: blocks, next_block_id, ..t }
}

/// Places a task on a working copy of the block rows. Gives the end of
/// the last stretch, or the start moved by the duration when there is no
/// stretch.
pub(crate) fn schedule_rows(
    blocks: &mut Vec<TimeBlock>,
    next_id: &mut i64,
    windows: &Vec<UnpluggedTime>,
    ws: i64,
    task_id: i64,
    title: &String,
    start: i64,
    remaining: i64,
    urgent: bool,
    Ghost(t): Ghost<Tables>,
) -> (r: Result<i128, AppError>)
    requires
        t.wf(),
        t.unplugged_times == windows@,
        t.time_blocks == old(blocks)@,
        t.next_block_id == *old(next_id),
        valid_instant(start as int),
    ensures
        match schedule_spec(t, ws, task_id, *title, start, remaining as int, urgent) {
            Ok(after) => r is Ok && after == with_blocks(t, final(blocks)@, *final(next_id))
                && after.wf() && r->Ok_0 == placed_end(windows@, ws, start, remaining as int),
            Err(k) => r matches Err(e) && e.spec_kind() == k,
        },
{
    proof {
        lemma_schedule_wf(t, ws, task_id, *title, start, remaining as int, urgent);
    }
    match place_intervals(windows, ws, start, remaining) {
        Some(stretches) => {
            let end: i128 = if stretches.len() > 0 {
                stretches[stretches.len() - 1].1 as i128
            } else {
                (start as i128) + (remaining as i128)
            };
            if append_rows(blocks, next_id, &stretches, ws, task_id, title, urgent) {
                Ok(end)
            } else {
                Err(internal("block ids exhausted"))
            }
        },
        None => Err(invalid_input("the task would leave the calendar")),
    }
}

/// Places a task on the timeline of workspace `ws`, as planned blocks
/// that realise `remaining` minutes from `start` on around the unplugged
/// windows of the workspace. The command fails with an invalid-input
/// error when a block would leave the stored range and with an internal
/// error when the block ids run out; then nothing is changed.
pub fn schedule_task_blocks(
    repo: &mut Repository,
    ws: i64,
    task_id: i64,
    title: &String,
    start: i64,
    remaining: i64,
    urgent: bool,
) -> (r: Result<(), AppError>)
    requires
        old(repo).wf(),
        valid_instant(start as int),
    ensures
        final(repo).wf(),
        match schedule_spec(old(repo)@, ws, task_id, *title, start, remaining as int, urgent) {
            Ok(after) => r is Ok && final(repo)@ == after,
            Err(k) => r matches Err(e) && e.spec_kind() == k && *final(repo) == *old(repo),
        },
{
    let mut work = copy_blocks(&repo.time_blocks);
    let mut next = repo.next_block_id;
    match schedule_rows(
        &mut work,
        &mut next,
        &repo.unplugged_times,
        ws,
        task_id,
        title,
        start,
        remaining,
        urgent,
        Ghost(repo@),
    ) {
        Ok(_) => {
            repo.time_blocks = work;
            repo.next_block_id = next;
            Ok(())
        },
        Err(e) => Err(e),
    }
}

/// The estimated minutes of a request to add a task.
pub open spec fn requested_minutes(input: AddTaskInput) -> i64 {
    (60 * input.hours + input.minutes) as i64
}

/// The task row that a request to add a task creates.
pub open spec fn requested_task(input: AddTaskInput, id: i64) -> Task {
    Task {
        id,
        workspace_id: input.workspace_id,
        title: input.title,
        planning_memo: input.planning_memo,
        estimated_minutes: requested_minutes(input),
    }
}

/// Where a task that is not urgent starts: at `now`, or at the latest end
/// of the blocks of the workspace when that is later.
pub open spec fn next_start(blocks: Seq<TimeBlock>, ws: i64, now: i64) -> i64 {
    match latest_end(blocks, ws) {
        Some(e) => if e < now {
            now
        } else {
            e
        },
        None => now,
    }
}

/// Block `b` cut short at `now` by an urgent task.
pub open spec fn truncated(b: TimeBlock, now: i64) -> TimeBlock {
    TimeBlock { end_time: now, status: BlockStatus::Pending, ..b }
}

/// The tables after an urgent task has been placed at `now`. Without a
/// block being worked on, the task is placed and the planned blocks from
/// `now` on are shifted by its duration. With one, that block is cut at
/// `now` and frozen, the urgent task is placed, the planned blocks that
/// start at the cut block's old end or later are shifted by the urgent
/// duration, and what was left of the cut block is placed anew from
/// where the urgent task ends.
pub open spec fn preempt_spec(
    t: Tables,
    ws: i64,
    task_id: i64,
    title: String,
    now: i64,
    duration: i64,
) -> Result<Tables, ErrorKind> {
    let i = active_position(t.time_blocks, ws, 0);
    if i >= t.time_blocks.len() {
        match schedule_spec(t, ws, task_id, title, now, duration as int, true) {
            Ok(placed) => match shift_future_spec(placed.time_blocks, ws, now, duration as int) {
                Some(blocks) => Ok(Tables { time_blocks: blocks, ..placed }),
                None => Err(ErrorKind::InvalidInput),
            },
            Err(k) => Err(k),
        }
    } else {
        let b = t.time_blocks[i];
        let cut = Tables { time_blocks: t.time_blocks.update(i, truncated(b, now)), ..t };
        match schedule_spec(cut, ws, task_id, title, now, duration as int, true) {
            Ok(placed) => match shift_future_spec(
                placed.time_blocks,
                ws,
                b.end_time,
                duration as int,
            ) {
                Some(blocks) => {
                    let shifted = Tables { time_blocks: blocks, ..placed };
                    let resume_at = placed_end(t.unplugged_times, ws, now, duration as int);
                    if b.end_time - now > 0 {
                        if valid_instant(resume_at) {
                            schedule_spec(
                                shifted,
                                ws,
                                b.task_id->0,
                                b.title,
                                resume_at as i64,
                                b.end_time - now,
                                b.is_urgent,
                            )
                        } else {
                            Err(ErrorKind::InvalidInput)
                        }
                    } else {
                        Ok(shifted)
                    }
                },
                None => Err(ErrorKind::InvalidInput),
            },
            Err(k) => Err(k),
        }
    }
}

/// The tables after a request to add a task at instant `now`.
///
/// The task row is stored with `60 * hours + minutes` estimated minutes.
/// A task for the inbox gets no block. Otherwise the task starts at `now`
/// when urgent, else at `now` or the latest end of the workspace's blocks,
/// whichever is later; a task that would reach into the next calendar day
/// gets no block and stays in the inbox; a task that is not urgent is
/// placed, and an urgent one is placed as `preempt_spec` says.
pub open spec fn add_task_at_spec(t: Tables, input: AddTaskInput, now: i64) -> Result<
    Tables,
    ErrorKind,
> {
    if !valid_instant(now as int) {
        Err(ErrorKind::InvalidInput)
    } else if t.next_task_id == i64::MAX {
        Err(ErrorKind::Internal)
    } else {
        let task = requested_task(input, t.next_task_id);
        let stored = Tables {
            tasks: t.tasks.push(task),
            next_task_id: (t.next_task_id + 1) as i64,
            ..t
        };
        let duration = requested_minutes(input);
        let start = if input.is_urgent {
            now
        } else {
            next_start(t.time_blocks, input.workspace_id, now)
        };
        if input.is_inbox == Some(true) {
            Ok(stored)
        } else if crosses_midnight(start as int, duration as int) {
            Ok(stored)
        } else if !input.is_urgent {
            schedule_spec(
                stored,
                input.workspace_id,
                task.id,
                input.title,
                start,
                duration as int,
                false,
            )
        } else {
            preempt_spec(stored, input.workspace_id, task.id, input.title, now, duration)
        }
    }
}

/// Computes where a task that is not urgent starts.
pub(crate) fn read_next_start(blocks: &Vec<TimeBlock>, ws: i64, now: i64) -> (start: i64)
    requires
        forall|i: int| 0 <= i < blocks.len() ==> (#[trigger] blocks[i]).wf(),
        valid_instant(now as int),
    ensures
        start == next_start(blocks@, ws, now),
        valid_instant(start as int),
{
    proof {
        lemma_latest_end(blocks@, ws);
    }
    match read_latest_end(blocks, ws) {
        Some(e) => if e < now {
            now
        } else {
            e
        },
        None => now,
    }
}

/// Places an urgent task on a working copy of the block rows.
fn preempt_rows(
    blocks: &mut Vec<TimeBlock>,
    next_id: &mut i64,
    windows: &Vec<UnpluggedTime>,
    ws: i64,
    task_id: i64,
    title: &String,
    now: i64,
    duration: i64,
    Ghost(t): Ghost<Tables>,
) -> (r: Result<(), AppError>)
    requires
        t.wf(),
        t.unplugged_times == windows@,
        t.time_blocks == old(blocks)@,
        t.next_block_id == *old(next_id),
        valid_instant(now as int),
    ensures
        match preempt_spec(t, ws, task_id, *title, now, duration) {
            Ok(after) => r is Ok && after == with_blocks(t, final(blocks)@, *final(next_id))
                && after.wf(),
            Err(k) => r matches Err(e) && e.spec_kind() == k,
        },
{
    proof {
        lemma_active_position(t.time_blocks, ws, 0);
    }
    match find_active(blocks, ws) {
        None => {
            match schedule_rows(
                blocks,
                next_id,
                windows,
                ws,
                task_id,
                title,
                now,
                duration,
                true,
                Ghost(t),
            ) {
                Ok(_) => {
                    let ghost placed = with_blocks(t, blocks@, *next_id);
                    if shift_rows(blocks, ws, now, duration) {
                        proof {
                            lemma_shift_wf(
                                placed.time_blocks,
                                placed.next_block_id,
                                ws,
                                now,
                                duration as int,
                            );
                        }
                        Ok(())
                    } else {
                        Err(invalid_input("a shifted block would leave the calendar"))
                    }
                },
                Err(e) => Err(e),
            }
        },
        Some(i) => {
            let old_end = blocks[i].end_time;
            let owner = match blocks[i].task_id {
                Some(id) => id,
                None => 0,
            };
            let owner_title = blocks[i].title.clone();
            let owner_urgent = blocks[i].is_urgent;
            assert(t.time_blocks[i as int].wf());
            blocks[i].end_time = now;
            blocks[i].status = BlockStatus::Pending;
            let ghost cut = Tables {
                time_blocks: t.time_blocks.update(i as int, truncated(t.time_blocks[i as int], now)),
                ..t
            };
            assert(blocks@ =~= cut.time_blocks);
            assert(cut.wf()) by {
                assert forall|j: int| 0 <= j < cut.time_blocks.len() implies (
                #[trigger] cut.time_blocks[j]).wf() && cut.time_blocks[j].id
                    == t.time_blocks[j].id by {
                    assert(t.time_blocks[j].wf());
                }
                assert forall|j: int, k: int| 0 <= j < k < cut.time_blocks.len() implies (
                #[trigger] cut.time_blocks[j]).id < (#[trigger] cut.time_blocks[k]).id by {
                    assert(t.time_blocks[j].id < t.time_blocks[k].id);
                }
            }
            match schedule_rows(
                blocks,
                next_id,
                windows,
                ws,
                task_id,
                title,
                now,
                duration,
                true,
                Ghost(cut),
            ) {
                Ok(resume_at) => {
                    let ghost placed = with_blocks(cut, blocks@, *next_id);
                    if shift_rows(blocks, ws, old_end, duration) {
                        proof {
                            lemma_shift_wf(
                                placed.time_blocks,
                                placed.next_block_id,
                                ws,
                                old_end,
                                duration as int,
                            );
                        }
                        let ghost shifted = with_blocks(placed, blocks@, *next_id);
                        if old_end > now {
                            if 1440 <= resume_at && resume_at <= 5_258_966_399 {
                                match schedule_rows(
                                    blocks,
                                    next_id,
                                    windows,
                                    ws,
                                    owner,
                                    &owner_title,
                                    resume_at as i64,
                                    old_end - now,
                                    owner_urgent,
                                    Ghost(shifted),
                                ) {
                                    Ok(_) => Ok(()),
                                    Err(e) => Err(e),
                                }
                            } else {
                                Err(invalid_input("the resumed task would leave the calendar"))
                            }
                        } else {
                            Ok(())
                        }
                    } else {
                        Err(invalid_input("a shifted block would leave the calendar"))
                    }
                },
                Err(e) => Err(e),
            }
        },
    }
}

/// Adds a task at instant `now`, as `add_task_at_spec` says. A request
/// that fails changes nothing: with an invalid-input error when `now` or
/// a block that the command would write lies outside the stored range,
/// with an internal error when ids run out.
pub fn add_task_at(repo: &mut Repository, input: AddTaskInput, now: i64) -> (r: Result<
    (),
    AppError,
>)
    requires
        old(repo).wf(),
    ensures
        final(repo).wf(),
        match add_task_at_spec(old(repo)@, input, now) {
            Ok(after) => r is Ok && final(repo)@ == after,
            Err(k) => r matches Err(e) && e.spec_kind() == k && *final(repo) == *old(repo),
        },
{
    if !is_valid_instant(now) {
        return Err(invalid_input("the current time lies outside the calendar"));
    }
    if repo.next_task_id == i64::MAX {
        return Err(internal("task ids exhausted"));
    }
    let ws = input.workspace_id;
    let task_id = repo.next_task_id;
    let duration: i64 = 60 * (input.hours as i64) + (input.minutes as i64);
    let urgent = input.is_urgent;
    let for_inbox = match input.is_inbox {
        Some(flag) => flag,
        None => false,
    };
    let title = input.title.clone();
    let task = Task {
        id: task_id,
        workspace_id: ws,
        title: input.title,
        planning_memo: input.planning_memo,
        estimated_minutes: duration,
    };
    let ghost stored = Tables {
        tasks: repo@.tasks.push(task),
        next_task_id: (task_id + 1) as i64,
        ..repo@
    };
    assert(stored.wf()) by {
        assert forall|i: int, j: int| 0 <= i < j < stored.tasks.len() implies (
        #[trigger] stored.tasks[i]).id < (#[trigger] stored.tasks[j]).id by {
            if j < repo@.tasks.len() {
                assert(repo@.tasks[i].id < repo@.tasks[j].id);
            } else {
                assert(repo@.tasks[i].id < repo@.next_task_id);
            }
        }
    }
    let mut work = copy_blocks(&repo.time_blocks);
    let mut next = repo.next_block_id;
    let start = if urgent {
        now
    } else {
        read_next_start(&repo.time_blocks, ws, now)
    };
    if !for_inbox && !is_crossing_midnight(start, duration) {
        if !urgent {
            match schedule_rows(
                &mut work,
                &mut next,
                &repo.unplugged_times,
                ws,
                task_id,
                &title,
                start,
                duration,
                false,
                Ghost(stored),
            ) {
                Ok(_) => {},
                Err(e) => {
                    return Err(e);
                },
            }
        } else {
            match preempt_rows(
                &mut work,
                &mut next,
                &repo.unplugged_times,
                ws,
                task_id,
                &title,
                now,
                duration,
                Ghost(stored),
            ) {
                Ok(_) => {},
                Err(e) => {
                    return Err(e);
                },
            }
        }
    }
    repo.tasks.push(task);
    repo.next_task_id = task_id + 1;
    repo.time_blocks = work;
    repo.next_block_id = next;
    Ok(())
}

/// The tables after a task has been added to the inbox: the task row is
/// stored with `60 * hours + minutes` estimated minutes and no block is
/// written. Fails with an internal error when the task ids run out.
pub open spec fn add_to_inbox_spec(t: Tables, input: AddTaskInput) -> Result<Tables, ErrorKind> {
    if t.next_task_id == i64::MAX {
        Err(ErrorKind::Internal)
    } else {
        Ok(
            Tables {
                tasks: t.tasks.push(requested_task(input, t.next_task_id)),
                next_task_id: (t.next_task_id + 1) as i64,
                ..t
            },
        )
    }
}

/// What adding a task by the clock comes to, given what the clock was
/// read as. With a reading it is what `add_task_at_spec` says for that
/// instant. Without one, a task for the inbox is stored all the same,
/// since it is placed nowhere; any other task fails with an internal
/// error.
pub open spec fn add_task_by_clock(t: Tables, input: AddTaskInput, reading: Option<i64>) -> Result<
    Tables,
    ErrorKind,
> {
    match reading {
        Some(now) => add_task_at_spec(t, input, now),
        None => if input.is_inbox == Some(true) {
            add_to_inbox_spec(t, input)
        } else {
            Err(ErrorKind::Internal)
        },
    }
}

/// A task for the inbox is added in the same way at every instant of the
/// stored range.
pub proof fn lemma_inbox_task_ignores_clock(t: Tables, input: AddTaskInput, now: i64)
    requires
        input.is_inbox == Some(true),
        valid_instant(now as int),
    ensures
        add_task_at_spec(t, input, now) == add_to_inbox_spec(t, input),
{
}

/// Adds a task at the instant the local clock shows, as `add_task_by_clock`
/// says of what the clock is read as. A task for the inbox is stored
/// without the clock being read, so for such a task the outcome is owed
/// whatever the clock shows. For any other task the clock is read; when
/// it shows a time outside the stored range the command fails with an
/// internal error. A request that fails changes nothing.
pub fn add_task(repo: &mut Repository, input: AddTaskInput) -> (r: Result<(), AppError>)
    requires
        old(repo).wf(),
    ensures
        final(repo).wf(),
        input.is_inbox == Some(true) ==> ends_as(
            add_to_inbox_spec(old(repo)@, input),
            *old(repo),
            *final(repo),
            r,
        ),
        exists|reading: Option<i64>|
            is_clock_reading(reading) && #[trigger] ends_as(
                add_task_by_clock(old(repo)@, input, reading),
                *old(repo),
                *final(repo),
                r,
            ),
{
    if matches!(input.is_inbox, Some(true)) {
        // Nothing is placed, so the instant plays no part.
        let r = add_task_at(repo, input, INSTANT_MIN);
        proof {
            lemma_inbox_task_ignores_clock(old(repo)@, input, INSTANT_MIN);
            assert(is_clock_reading(None::<i64>) && ends_as(
                add_task_by_clock(old(repo)@, input, None::<i64>),
                *old(repo),
                *repo,
                r,
            ));
        }
        return r;
    }
    let reading = now_instant();
    match reading {
        Some(now) => {
            let r = add_task_at(repo, input, now);
            assert(is_clock_reading(reading) && ends_as(
                add_task_by_clock(old(repo)@, input, reading),
                *old(repo),
                *repo,
                r,
            ));
            r
        },
        None => {
            let r = Err(internal("the clock shows a time outside the calendar"));
            assert(is_clock_reading(reading) && ends_as(
                add_task_by_clock(old(repo)@, input, reading),
                *old(repo),
                *repo,
                r,
            ));
            r
        },
    }
}

} // verus!
