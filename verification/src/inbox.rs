//! Moving tasks between the inbox and the timeline, and deleting tasks.
//! A task is in the inbox while no block belongs to it.

use vstd::prelude::*;
use crate::clock::crosses_midnight;
use crate::clock::is_clock_reading;
use crate::clock::is_crossing_midnight;
use crate::clock::is_valid_instant;
use crate::clock::now_instant;
use crate::clock::valid_instant;
use crate::error::AppError;
use crate::error::ErrorKind;
use crate::error::internal;
use crate::error::invalid_input;
use crate::error::not_found;
use crate::models::Task;
use crate::models::TimeBlock;
use crate::models::copy_blocks;
use crate::repository::Repository;
use crate::repository::Tables;
use crate::repository::block_position;
use crate::repository::blocks_wf;
use crate::repository::check_task_has_block;
use crate::repository::ends_as;
use crate::repository::find_block;
use crate::repository::find_task;
use crate::repository::same_task;
use crate::repository::task_has_block;
use crate::repository::task_position;
use crate::repository::tasks_wf;
use crate::scheduler::next_start;
use crate::scheduler::read_next_start;
use crate::scheduler::schedule_rows;
use crate::scheduler::schedule_spec;
use crate::scheduler::with_blocks;

verus! {

/// The minutes a task takes on the timeline: its estimate, or thirty
/// minutes when the estimate is unknown.
pub open spec fn effective_minutes(task: Task) -> i64 {
    if task.estimated_minutes > 0 {
        task.estimated_minutes
    } else {
        30
    }
}

/// The test that keeps the blocks that do not belong to the given task.
pub open spec fn not_of_task(task_id: Option<i64>) -> spec_fn(TimeBlock) -> bool {
    |b: TimeBlock| b.task_id != task_id
}

/// The test that keeps the tasks with another id.
pub open spec fn other_task(id: i64) -> spec_fn(Task) -> bool {
    |task: Task| task.id != id
}

/// The tables after a task has been moved to the timeline at instant
/// `now`: the task is placed at `now` or at the latest end of the
/// workspace's blocks, whichever is later, for its effective minutes, and
/// nothing else moves. A task that would reach into the next calendar day
/// is not placed.
pub open spec fn move_to_timeline_spec(t: Tables, task_id: i64, ws: i64, now: i64) -> Result<
    Tables,
    ErrorKind,
> {
    let i = task_position(t.tasks, task_id, 0);
    if !valid_instant(now as int) {
        Err(ErrorKind::InvalidInput)
    } else if i >= t.tasks.len() {
        Err(ErrorKind::NotFound)
    } else {
        let start = next_start(t.time_blocks, ws, now);
        let minutes = effective_minutes(t.tasks[i]);
        if crosses_midnight(start as int, minutes as int) {
            Ok(t)
        } else {
            schedule_spec(t, ws, task_id, t.tasks[i].title, start, minutes as int, false)
        }
    }
}

/// Whether a task was in the inbox of workspace `ws` when the command
/// started, the blocks then being `at_start`.
pub open spec fn in_inbox(task: Task, at_start: Seq<TimeBlock>, ws: i64) -> bool {
    task.workspace_id == ws && !task_has_block(at_start, task.id)
}

/// The tables after the tasks from position `from` on that were in the
/// inbox of workspace `ws` have been moved to the timeline in table
/// order. Each starts at `now` or at the latest end of the blocks as they
/// then are; the first task that would reach into the next calendar day
/// ends the run, and it and the tasks after it stay in the inbox.
pub open spec fn place_inbox(t: Tables, at_start: Seq<TimeBlock>, from: int, ws: i64, now: i64)
    -> Result<Tables, ErrorKind>
    decreases t.tasks.len() - from,
{
    if from < 0 || from >= t.tasks.len() {
        Ok(t)
    } else if in_inbox(t.tasks[from], at_start, ws) {
        let start = next_start(t.time_blocks, ws, now);
        let minutes = effective_minutes(t.tasks[from]);
        if crosses_midnight(start as int, minutes as int) {
            Ok(t)
        } else {
            match schedule_spec(
                t,
                ws,
                t.tasks[from].id,
                t.tasks[from].title,
                start,
                minutes as int,
                false,
            ) {
                Ok(placed) => place_inbox(placed, at_start, from + 1, ws, now),
                Err(k) => Err(k),
            }
        }
    } else {
        place_inbox(t, at_start, from + 1, ws, now)
    }
}

/// The tables after every inbox task of workspace `ws` has been offered
/// to the timeline at instant `now`.
pub open spec fn move_all_to_timeline_spec(t: Tables, ws: i64, now: i64) -> Result<
    Tables,
    ErrorKind,
> {
    if !valid_instant(now as int) {
        Err(ErrorKind::InvalidInput)
    } else {
        place_inbox(t, t.time_blocks, 0, ws, now)
    }
}

/// The tables after the task of a block has been moved to the inbox: all
/// blocks of the task are gone, the task row stays.
pub open spec fn move_to_inbox_spec(t: Tables, block_id: i64) -> Result<Tables, ErrorKind> {
    let i = block_position(t.time_blocks, block_id, 0);
    if i >= t.time_blocks.len() {
        Err(ErrorKind::NotFound)
    } else {
        match t.time_blocks[i].task_id {
            Some(task_id) => Ok(
                Tables { time_blocks: t.time_blocks.filter(not_of_task(Some(task_id))), ..t },
            ),
            None => Ok(t),
        }
    }
}

/// The tables after a task has been deleted: its row and all its blocks
/// are gone.
pub open spec fn delete_task_spec(t: Tables, id: i64) -> Tables {
    Tables {
        tasks: t.tasks.filter(other_task(id)),
        time_blocks: t.time_blocks.filter(not_of_task(Some(id))),
        ..t
    }
}

/// Rows that remain after some were dropped can still be stored, and each
/// of them was among the rows before.
pub proof fn lemma_filter_blocks_wf(
    blocks: Seq<TimeBlock>,
    next_id: i64,
    keep: spec_fn(TimeBlock) -> bool,
)
    requires
        blocks_wf(blocks, next_id),
    ensures
        blocks_wf(blocks.filter(keep), next_id),
        forall|i: int|
            0 <= i < blocks.filter(keep).len() ==> exists|j: int|
                0 <= j < blocks.len() && blocks[j] == #[trigger] blocks.filter(keep)[i],
    decreases blocks.len(),
{
    reveal(Seq::filter);
    if blocks.len() > 0 {
        let front = blocks.drop_last();
        let kept = front.filter(keep);
        assert(blocks_wf(front, next_id)) by {
            assert forall|i: int| 0 <= i < front.len() implies front[i] == blocks[i] by {}
            assert forall|i: int| 0 <= i < front.len() implies (#[trigger] front[i]).wf()
                && front[i].id < next_id by {
                assert(blocks[i].wf());
            }
            assert forall|i: int, j: int| 0 <= i < j < front.len() implies (#[trigger] front[i]).id
                < (#[trigger] front[j]).id by {
                assert(blocks[i].id < blocks[j].id);
            }
        }
        lemma_filter_blocks_wf(front, next_id, keep);
        let after = blocks.filter(keep);
        assert forall|i: int| 0 <= i < after.len() implies exists|j: int|
            0 <= j < blocks.len() && blocks[j] == #[trigger] after[i] by {
            if i < kept.len() {
                let j = choose|j: int| 0 <= j < front.len() && front[j] == kept[i];
                assert(blocks[j] == after[i]);
            } else {
                assert(blocks[blocks.len() - 1] == after[i]);
            }
        }
        assert forall|i: int| 0 <= i < after.len() implies (#[trigger] after[i]).wf()
            && after[i].id < next_id by {
            let j = choose|j: int| 0 <= j < blocks.len() && blocks[j] == after[i];
            assert(blocks[j].wf());
        }
        assert forall|i: int, j: int| 0 <= i < j < after.len() implies (#[trigger] after[i]).id < (
        #[trigger] after[j]).id by {
            if j < kept.len() {
                assert(kept[i].id < kept[j].id);
            } else {
                let k = choose|k: int| 0 <= k < front.len() && front[k] == kept[i];
                assert(blocks[k].id < blocks[blocks.len() - 1].id);
            }
        }
    }
}

/// Task rows that remain after some were dropped still have growing ids,
/// and each of them was among the rows before.
pub proof fn lemma_filter_tasks_wf(tasks: Seq<Task>, next_id: i64, keep: spec_fn(Task) -> bool)
    requires
        tasks_wf(tasks, next_id),
    ensures
        tasks_wf(tasks.filter(keep), next_id),
        forall|i: int|
            0 <= i < tasks.filter(keep).len() ==> exists|j: int|
                0 <= j < tasks.len() && tasks[j] == #[trigger] tasks.filter(keep)[i],
    decreases tasks.len(),
{
    reveal(Seq::filter);
    if tasks.len() > 0 {
        let front = tasks.drop_last();
        let kept = front.filter(keep);
        assert(tasks_wf(front, next_id)) by {
            assert forall|i: int| 0 <= i < front.len() implies (#[trigger] front[i]).id
                < next_id by {
                assert(front[i] == tasks[i]);
            }
            assert forall|i: int, j: int| 0 <= i < j < front.len() implies (#[trigger] front[i]).id
                < (#[trigger] front[j]).id by {
                assert(tasks[i].id < tasks[j].id);
            }
        }
        lemma_filter_tasks_wf(front, next_id, keep);
        let after = tasks.filter(keep);
        assert forall|i: int| 0 <= i < after.len() implies exists|j: int|
            0 <= j < tasks.len() && tasks[j] == #[trigger] after[i] by {
            if i < kept.len() {
                let j = choose|j: int| 0 <= j < front.len() && front[j] == kept[i];
                assert(tasks[j] == after[i]);
            } else {
                assert(tasks[tasks.len() - 1] == after[i]);
            }
        }
        assert forall|i: int| 0 <= i < after.len() implies (#[trigger] after[i]).id < next_id by {
            let j = choose|j: int| 0 <= j < tasks.len() && tasks[j] == after[i];
            assert(tasks[j].id < next_id);
        }
        assert forall|i: int, j: int| 0 <= i < j < after.len() implies (#[trigger] after[i]).id < (
        #[trigger] after[j]).id by {
            if j < kept.len() {
                assert(kept[i].id < kept[j].id);
            } else {
                let k = choose|k: int| 0 <= k < front.len() && front[k] == kept[i];
                assert(tasks[k].id < tasks[tasks.len() - 1].id);
            }
        }
    }
}

/// Copies the rows that do not belong to the given task.
pub(crate) fn rows_without_task(blocks: &Vec<TimeBlock>, task_id: Option<i64>) -> (kept: Vec<TimeBlock>)
    ensures
        kept@ == blocks@.filter(not_of_task(task_id)),
{
    let mut kept: Vec<TimeBlock> = Vec::new();
    let mut i: usize = 0;
    proof {
        reveal(Seq::filter);
    }
    while i < blocks.len()
        invariant
            i <= blocks.len(),
            kept@ == blocks@.take(i as int).filter(not_of_task(task_id)),
        decreases blocks.len() - i,
    {
        proof {
            reveal(Seq::filter);
            assert(blocks@.take(i + 1).drop_last() =~= blocks@.take(i as int));
        }
        if !same_task(&blocks[i].task_id, &task_id) {
            kept.push(blocks[i].duplicate());
        }
        i = i + 1;
    }
    assert(blocks@.take(i as int) =~= blocks@);
    kept
}

/// Copies the task rows with another id.
pub(crate) fn rows_without_id(tasks: &Vec<Task>, id: i64) -> (kept: Vec<Task>)
    ensures
        kept@ == tasks@.filter(other_task(id)),
{
    let mut kept: Vec<Task> = Vec::new();
    let mut i: usize = 0;
    proof {
        reveal(Seq::filter);
    }
    while i < tasks.len()
        invariant
            i <= tasks.len(),
            kept@ == tasks@.take(i as int).filter(other_task(id)),
        decreases tasks.len() - i,
    {
        proof {
            reveal(Seq::filter);
            assert(tasks@.take(i + 1).drop_last() =~= tasks@.take(i as int));
        }
        if tasks[i].id != id {
            kept.push(tasks[i].duplicate());
        }
        i = i + 1;
    }
    assert(tasks@.take(i as int) =~= tasks@);
    kept
}

/// The minutes a task takes on the timeline.
pub fn task_minutes(task: &Task) -> (minutes: i64)
    ensures
        minutes == effective_minutes(*task),
{
    if task.estimated_minutes > 0 {
        task.estimated_minutes
    } else {
        30
    }
}

/// Moves a task to the timeline at instant `now`, as
/// `move_to_timeline_spec` says. Fails, and changes nothing, with an
/// invalid-input error when `now` or a block to write lies outside the
/// stored range, with a not-found error when there is no such task, and
/// with an internal error when the block ids run out.
pub fn move_to_timeline_at(repo: &mut Repository, task_id: i64, ws: i64, now: i64) -> (r: Result<
    (),
    AppError,
>)
    requires
        old(repo).wf(),
    ensures
        final(repo).wf(),
        match move_to_timeline_spec(old(repo)@, task_id, ws, now) {
            Ok(after) => r is Ok && final(repo)@ == after,
            Err(k) => r matches Err(e) && e.spec_kind() == k && *final(repo) == *old(repo),
        },
{
    if !is_valid_instant(now) {
        return Err(invalid_input("the current time lies outside the calendar"));
    }
    match find_task(&repo.tasks, task_id) {
        None => Err(not_found("no such task")),
        Some(i) => {
            let start = read_next_start(&repo.time_blocks, ws, now);
            let minutes = task_minutes(&repo.tasks[i]);
            if is_crossing_midnight(start, minutes) {
                Ok(())
            } else {
                let title = repo.tasks[i].title.clone();
                let mut work = copy_blocks(&repo.time_blocks);
                let mut next = repo.next_block_id;
                match schedule_rows(
                    &mut work,
                    &mut next,
                    &repo.unplugged_times,
                    ws,
                    task_id,
                    &title,
                    start,
                    minutes,
                    false,
                    Ghost(repo@),
                ) {
                    Ok(_) => {
                        repo.time_blocks = work;
                        repo.next_block_id = next;
                        Ok(())
                    },
                    Err(e) => Err(e),
                }
            }
        },
    }
}

/// What moving a task to the timeline by the clock comes to, given what
/// the clock was read as. With a reading it is what
/// `move_to_timeline_spec` says for that instant. Without one, a task
/// that does not exist is still reported as not found; for a task that
/// exists the command fails with an internal error.
pub open spec fn move_to_timeline_by_clock(t: Tables, task_id: i64, ws: i64, reading: Option<i64>)
    -> Result<Tables, ErrorKind> {
    match reading {
        Some(now) => move_to_timeline_spec(t, task_id, ws, now),
        None => if task_position(t.tasks, task_id, 0) >= t.tasks.len() {
            Err(ErrorKind::NotFound)
        } else {
            Err(ErrorKind::Internal)
        },
    }
}

/// Moves a task to the timeline at the instant the local clock shows, as
/// `move_to_timeline_by_clock` says of what the clock is read as. A task
/// that does not exist is reported as not found without the clock being
/// read. For a task that exists the clock is read; when it shows a time
/// outside the stored range the command fails with an internal error. A
/// request that fails changes nothing.
pub fn move_to_timeline(repo: &mut Repository, task_id: i64, ws: i64) -> (r: Result<(), AppError>)
    requires
        old(repo).wf(),
    ensures
        final(repo).wf(),
        task_position(old(repo)@.tasks, task_id, 0) >= old(repo)@.tasks.len() ==> ends_as(
            Err(ErrorKind::NotFound),
            *old(repo),
            *final(repo),
            r,
        ),
        exists|reading: Option<i64>|
            is_clock_reading(reading) && #[trigger] ends_as(
                move_to_timeline_by_clock(old(repo)@, task_id, ws, reading),
                *old(repo),
                *final(repo),
                r,
            ),
{
    if find_task(&repo.tasks, task_id).is_none() {
        let r = Err(not_found("no such task"));
        assert(is_clock_reading(None::<i64>) && ends_as(
            move_to_timeline_by_clock(old(repo)@, task_id, ws, None::<i64>),
            *old(repo),
            *repo,
            r,
        ));
        return r;
    }
    let reading = now_instant();
    match reading {
        Some(now) => {
            let r = move_to_timeline_at(repo, task_id, ws, now);
            assert(is_clock_reading(reading) && ends_as(
                move_to_timeline_by_clock(old(repo)@, task_id, ws, reading),
                *old(repo),
                *repo,
                r,
            ));
            r
        },
        None => {
            let r = Err(internal("the clock shows a time outside the calendar"));
            assert(is_clock_reading(reading) && ends_as(
                move_to_timeline_by_clock(old(repo)@, task_id, ws, reading),
                *old(repo),
                *repo,
                r,
            ));
            r
        },
    }
}

/// Offers every inbox task of workspace `ws` to the timeline at instant
/// `now`, as `move_all_to_timeline_spec` says. Fails, and changes
/// nothing, with an invalid-input error when `now` or a block to write
/// lies outside the stored range, and with an internal error when the
/// block ids run out.
pub fn move_all_to_timeline_at(repo: &mut Repository, ws: i64, now: i64) -> (r: Result<
    (),
    AppError,
>)
    requires
        old(repo).wf(),
    ensures
        final(repo).wf(),
        match move_all_to_timeline_spec(old(repo)@, ws, now) {
            Ok(after) => r is Ok && final(repo)@ == after,
            Err(k) => r matches Err(e) && e.spec_kind() == k && *final(repo) == *old(repo),
        },
{
    if !is_valid_instant(now) {
        return Err(invalid_input("the current time lies outside the calendar"));
    }
    let mut work = copy_blocks(&repo.time_blocks);
    let mut next = repo.next_block_id;
    let n = repo.tasks.len();
    let mut i: usize = 0;
    let mut stopped = false;
    while i < n && !stopped
        invariant
            n == repo.tasks.len(),
            i <= n,
            repo.wf(),
            *repo == *old(repo),
            valid_instant(now as int),
            with_blocks(repo@, work@, next).wf(),
            !stopped ==> place_inbox(repo@, repo@.time_blocks, 0, ws, now) == place_inbox(
                with_blocks(repo@, work@, next),
                repo@.time_blocks,
                i as int,
                ws,
                now,
            ),
            stopped ==> place_inbox(repo@, repo@.time_blocks, 0, ws, now) == Ok::<
                Tables,
                ErrorKind,
            >(with_blocks(repo@, work@, next)),
        decreases
                n - i + if stopped {
                    0int
                } else {
                    1int
                },
    {
        let ghost cur = with_blocks(repo@, work@, next);
        let task = &repo.tasks[i];
        if task.workspace_id == ws && !check_task_has_block(&repo.time_blocks, task.id) {
            let start = read_next_start(&work, ws, now);
            let minutes = task_minutes(task);
            if is_crossing_midnight(start, minutes) {
                stopped = true;
            } else {
                match schedule_rows(
                    &mut work,
                    &mut next,
                    &repo.unplugged_times,
                    ws,
                    task.id,
                    &task.title,
                    start,
                    minutes,
                    false,
                    Ghost(cur),
                ) {
                    Ok(_) => {
                        i = i + 1;
                    },
                    Err(e) => {
                        return Err(e);
                    },
                }
            }
        } else {
            i = i + 1;
        }
    }
    repo.time_blocks = work;
    repo.next_block_id = next;
    Ok(())
}

/// Whether some task is in the inbox of workspace `ws`.
pub open spec fn has_inbox_task(t: Tables, ws: i64) -> bool {
    exists|i: int| 0 <= i < t.tasks.len() && in_inbox(#[trigger] t.tasks[i], t.time_blocks, ws)
}

/// What offering the inbox of workspace `ws` to the timeline by the
/// clock comes to, given what the clock was read as. With a reading it
/// is what `move_all_to_timeline_spec` says for that instant. Without
/// one, an empty inbox is still success with nothing changed; with a task
/// in the inbox the command fails with an internal error.
pub open spec fn move_all_to_timeline_by_clock(t: Tables, ws: i64, reading: Option<i64>) -> Result<
    Tables,
    ErrorKind,
> {
    match reading {
        Some(now) => move_all_to_timeline_spec(t, ws, now),
        None => if has_inbox_task(t, ws) {
            Err(ErrorKind::Internal)
        } else {
            Ok(t)
        },
    }
}

/// Where no task from position `from` on was in the inbox, offering the
/// inbox to the timeline leaves the tables as they are.
pub proof fn lemma_empty_inbox_stays(
    t: Tables,
    at_start: Seq<TimeBlock>,
    from: int,
    ws: i64,
    now: i64,
)
    requires
        forall|i: int| from <= i < t.tasks.len() && 0 <= i ==> !in_inbox(t.tasks[i], at_start, ws),
    ensures
        place_inbox(t, at_start, from, ws, now) == Ok::<Tables, ErrorKind>(t),
    decreases t.tasks.len() - from,
{
    if 0 <= from < t.tasks.len() {
        lemma_empty_inbox_stays(t, at_start, from + 1, ws, now);
    }
}

/// With an empty inbox, offering it to the timeline changes nothing at
/// any instant of the stored range.
pub proof fn lemma_empty_inbox_ignores_clock(t: Tables, ws: i64, now: i64)
    requires
        !has_inbox_task(t, ws),
        valid_instant(now as int),
    ensures
        move_all_to_timeline_spec(t, ws, now) == Ok::<Tables, ErrorKind>(t),
{
    lemma_empty_inbox_stays(t, t.time_blocks, 0, ws, now);
}

/// Whether some task is in the inbox of workspace `ws`.
pub fn check_has_inbox_task(repo: &Repository, ws: i64) -> (found: bool)
    ensures
        found == has_inbox_task(repo@, ws),
{
    let n = repo.tasks.len();
    let mut i: usize = 0;
    while i < n
        invariant
            n == repo.tasks.len(),
            i <= n,
            forall|k: int| 0 <= k < i ==> !in_inbox(repo@.tasks[k], repo@.time_blocks, ws),
        decreases n - i,
    {
        let task = &repo.tasks[i];
        if task.workspace_id == ws && !check_task_has_block(&repo.time_blocks, task.id) {
            assert(in_inbox(repo@.tasks[i as int], repo@.time_blocks, ws));
            return true;
        }
        i = i + 1;
    }
    false
}

/// Offers every inbox task of workspace `ws` to the timeline at the
/// instant the local clock shows, as `move_all_to_timeline_by_clock`
/// says of what the clock is read as. With an empty inbox the command
/// succeeds and changes nothing, without the clock being read. With a
/// task in the inbox the clock is read; when it shows a time outside the
/// stored range the command fails with an internal error. A request that
/// fails changes nothing.
pub fn move_all_to_timeline(repo: &mut Repository, ws: i64) -> (r: Result<(), AppError>)
    requires
        old(repo).wf(),
    ensures
        final(repo).wf(),
        !has_inbox_task(old(repo)@, ws) ==> r is Ok && *final(repo) == *old(repo),
        exists|reading: Option<i64>|
            is_clock_reading(reading) && #[trigger] ends_as(
                move_all_to_timeline_by_clock(old(repo)@, ws, reading),
                *old(repo),
                *final(repo),
                r,
            ),
{
    if !check_has_inbox_task(repo, ws) {
        let r = Ok(());
        assert(is_clock_reading(None::<i64>) && ends_as(
            move_all_to_timeline_by_clock(old(repo)@, ws, None::<i64>),
            *old(repo),
            *repo,
            r,
        ));
        return r;
    }
    let reading = now_instant();
    match reading {
        Some(now) => {
            let r = move_all_to_timeline_at(repo, ws, now);
            assert(is_clock_reading(reading) && ends_as(
                move_all_to_timeline_by_clock(old(repo)@, ws, reading),
                *old(repo),
                *repo,
                r,
            ));
            r
        },
        None => {
            let r = Err(internal("the clock shows a time outside the calendar"));
            assert(is_clock_reading(reading) && ends_as(
                move_all_to_timeline_by_clock(old(repo)@, ws, reading),
                *old(repo),
                *repo,
                r,
            ));
            r
        },
    }
}

/// Moves the task of a block to the inbox: every block of the task is
/// removed and the task row is kept. Fails with a not-found error, and
/// changes nothing, when there is no block with the id.
pub fn move_to_inbox(repo: &mut Repository, block_id: i64) -> (r: Result<(), AppError>)
    requires
        old(repo).wf(),
    ensures
        final(repo).wf(),
        match move_to_inbox_spec(old(repo)@, block_id) {
            Ok(after) => r is Ok && final(repo)@ == after,
            Err(k) => r matches Err(e) && e.spec_kind() == k && *final(repo) == *old(repo),
        },
{
    match find_block(&repo.time_blocks, block_id) {
        None => Err(not_found("no such block")),
        Some(i) => {
            match repo.time_blocks[i].task_id {
                Some(task_id) => {
                    let kept = rows_without_task(&repo.time_blocks, Some(task_id));
                    proof {
                        lemma_filter_blocks_wf(
                            repo@.time_blocks,
                            repo.next_block_id,
                            not_of_task(Some(task_id)),
                        );
                    }
                    repo.time_blocks = kept;
                    Ok(())
                },
                None => Ok(()),
            }
        },
    }
}

/// Deletes a task together with all its blocks. Deleting a task that is
/// not stored changes nothing.
pub fn delete_task(repo: &mut Repository, id: i64) -> (r: Result<(), AppError>)
    requires
        old(repo).wf(),
    ensures
        final(repo).wf(),
        r is Ok,
        final(repo)@ == delete_task_spec(old(repo)@, id),
{
    let tasks = rows_without_id(&repo.tasks, id);
    let blocks = rows_without_task(&repo.time_blocks, Some(id));
    proof {
        lemma_filter_blocks_wf(repo@.time_blocks, repo.next_block_id, not_of_task(Some(id)));
        lemma_filter_tasks_wf(repo@.tasks, repo.next_task_id, other_task(id));
    }
    repo.tasks = tasks;
    repo.time_blocks = blocks;
    Ok(())
}

} // verus!
