//! The transitioner: completing or delaying the last block of a task, and
//! setting a block's status.

use vstd::prelude::*;
use crate::clock::INSTANT_MIN;
use crate::clock::is_clock_reading;
use crate::clock::now_instant;
use crate::clock::valid_instant;
use crate::error::AppError;
use crate::error::ErrorKind;
use crate::error::internal;
use crate::error::invalid_input;
use crate::error::not_found;
use crate::models::BlockStatus;
use crate::models::TaskTransitionInput;
use crate::models::TimeBlock;
use crate::models::TransitionAction;
use crate::models::copy_blocks;
use crate::repository::Repository;
use crate::repository::Tables;
use crate::repository::block_position;
use crate::repository::blocks_wf;
use crate::repository::check_last_of_task;
use crate::repository::ends_as;
use crate::repository::find_block;
use crate::repository::is_last_of_task;
use crate::repository::same_task;
use crate::shifter::lemma_shift_wf;
use crate::shifter::shift_future_spec;
use crate::shifter::shift_rows;

verus! {

/// The extra minutes a transition request carries; zero when it carries
/// none.
pub open spec fn extra_of(input: TaskTransitionInput) -> i64 {
    match input.extra_minutes {
        Some(m) => m as i64,
        None => 0,
    }
}

/// Where the block ends after the transition: at `now` when completed
/// now, `extra` minutes before `now` when completed a while ago, at its
/// planned end when completed on time, and `extra` minutes after its
/// planned end when delayed.
pub open spec fn transition_end(action: TransitionAction, b: TimeBlock, extra: i64, now: i64)
    -> int {
    match action {
        TransitionAction::CompleteOnTime => b.end_time as int,
        TransitionAction::CompleteNow => now as int,
        TransitionAction::CompleteAgo => now - extra,
        TransitionAction::Delay => b.end_time + extra,
    }
}

/// Block `b` marked as done when it belongs to the given task.
pub open spec fn done_if_of(b: TimeBlock, task_id: Option<i64>) -> TimeBlock {
    if b.task_id == task_id {
        TimeBlock { status: BlockStatus::Done, ..b }
    } else {
        b
    }
}

/// Marking the blocks of a task as done, as a function of the block.
pub open spec fn mark_done(task_id: Option<i64>) -> spec_fn(TimeBlock) -> TimeBlock {
    |b: TimeBlock| done_if_of(b, task_id)
}

/// Block `b` completed at `end` with a review memo.
pub open spec fn completed(b: TimeBlock, end: i64, memo: Option<String>) -> TimeBlock {
    TimeBlock { status: BlockStatus::Done, end_time: end, review_memo: memo, ..b }
}

/// The blocks after the block at position `i` has been completed at
/// `end`: the planned blocks of its workspace that start at its planned
/// end or later move by the difference, every block of its task is marked
/// as done, and the block itself gets the new end and the memo.
pub open spec fn complete_blocks(
    blocks: Seq<TimeBlock>,
    i: int,
    end: i64,
    memo: Option<String>,
) -> Option<Seq<TimeBlock>> {
    let b = blocks[i];
    match shift_future_spec(blocks, b.workspace_id, b.end_time, end - b.end_time) {
        Some(shifted) => {
            let done = shifted.map_values(mark_done(b.task_id));
            Some(done.update(i, completed(done[i], end, memo)))
        },
        None => None,
    }
}

/// The blocks after the block at position `i` has been delayed to end at
/// `end`: the block gets the new end, and the planned blocks of its
/// workspace that start at its old end or later move by the difference.
pub open spec fn delay_blocks(blocks: Seq<TimeBlock>, i: int, end: i64) -> Option<Seq<TimeBlock>> {
    let b = blocks[i];
    shift_future_spec(
        blocks.update(i, TimeBlock { end_time: end, ..b }),
        b.workspace_id,
        b.end_time,
        end - b.end_time,
    )
}

/// The tables after a transition request at instant `now`.
///
/// The request is rejected with a not-found error when no block has the
/// id, and with an invalid-input error when the block is not the last of
/// its task, when the action is none of the four, when the new end lies
/// outside the stored range, when a completion a while ago would end the
/// block before it starts, or when a block to shift would leave the
/// stored range.
pub open spec fn process_transition_spec(t: Tables, input: TaskTransitionInput, now: i64)
    -> Result<Tables, ErrorKind> {
    let i = block_position(t.time_blocks, input.block_id, 0);
    if i >= t.time_blocks.len() {
        Err(ErrorKind::NotFound)
    } else if !is_last_of_task(t.time_blocks, i) {
        Err(ErrorKind::InvalidInput)
    } else {
        match TransitionAction::parse_spec(input.action@) {
            None => Err(ErrorKind::InvalidInput),
            Some(action) => {
                let b = t.time_blocks[i];
                let end = transition_end(action, b, extra_of(input), now);
                if !valid_instant(end) {
                    Err(ErrorKind::InvalidInput)
                } else if action == TransitionAction::CompleteAgo && end < b.start_time {
                    Err(ErrorKind::InvalidInput)
                } else {
                    let blocks = if action == TransitionAction::Delay {
                        delay_blocks(t.time_blocks, i, end as i64)
                    } else {
                        complete_blocks(t.time_blocks, i, end as i64, input.review_memo)
                    };
                    match blocks {
                        Some(after) => Ok(Tables { time_blocks: after, ..t }),
                        None => Err(ErrorKind::InvalidInput),
                    }
                }
            },
        }
    }
}

/// The tables after a request to set the status of a block. The request
/// is rejected with a not-found error when no block has the id, and with
/// an invalid-input error when the block is not the last of its task or
/// the status is none that can be stored.
pub open spec fn update_block_status_spec(t: Tables, block_id: i64, status: Seq<char>) -> Result<
    Tables,
    ErrorKind,
> {
    let i = block_position(t.time_blocks, block_id, 0);
    if i >= t.time_blocks.len() {
        Err(ErrorKind::NotFound)
    } else if !is_last_of_task(t.time_blocks, i) {
        Err(ErrorKind::InvalidInput)
    } else {
        match BlockStatus::parse_spec(status) {
            Some(s) => if s == BlockStatus::Unplugged {
                Err(ErrorKind::InvalidInput)
            } else {
                Ok(
                    Tables {
                        time_blocks: t.time_blocks.update(
                            i,
                            TimeBlock { status: s, ..t.time_blocks[i] },
                        ),
                        ..t
                    },
                )
            },
            None => Err(ErrorKind::InvalidInput),
        }
    }
}

/// Changing ends and statuses of stored blocks, none to a view row and
/// every end within the stored range, keeps the blocks storable.
pub proof fn lemma_same_ids_wf(before: Seq<TimeBlock>, after: Seq<TimeBlock>, next_id: i64)
    requires
        blocks_wf(before, next_id),
        after.len() == before.len(),
        forall|j: int|
            0 <= j < after.len() ==> (#[trigger] after[j]).id == before[j].id && after[j].wf(),
    ensures
        blocks_wf(after, next_id),
{
    assert forall|j: int| 0 <= j < after.len() implies (#[trigger] after[j]).id < next_id by {
        assert(before[j].id < next_id);
    }
    assert forall|j: int, k: int| 0 <= j < k < after.len() implies (#[trigger] after[j]).id < (
    #[trigger] after[k]).id by {
        assert(before[j].id < before[k].id);
    }
}

/// Marks every row of the task as done.
fn mark_rows_done(blocks: &mut Vec<TimeBlock>, task_id: Option<i64>)
    ensures
        final(blocks)@ == old(blocks)@.map_values(mark_done(task_id)),
{
    let n = blocks.len();
    let mut j: usize = 0;
    while j < n
        invariant
            n == blocks.len(),
            blocks.len() == old(blocks).len(),
            j <= n,
            forall|k: int| 0 <= k < j ==> blocks[k] == done_if_of(#[trigger] old(blocks)[k], task_id),
            forall|k: int| j <= k < n ==> blocks[k] == old(blocks)[k],
        decreases n - j,
    {
        if same_task(&blocks[j].task_id, &task_id) {
            blocks[j].status = BlockStatus::Done;
        }
        j = j + 1;
    }
    assert(blocks@ =~= old(blocks)@.map_values(mark_done(task_id)));
}

/// Carries out a transition request at instant `now`, as
/// `process_transition_spec` says. A request that is rejected changes
/// nothing.
pub fn process_task_transition_at(repo: &mut Repository, input: TaskTransitionInput, now: i64) -> (r:
    Result<(), AppError>)
    requires
        old(repo).wf(),
    ensures
        final(repo).wf(),
        match process_transition_spec(old(repo)@, input, now) {
            Ok(after) => r is Ok && final(repo)@ == after,
            Err(k) => r matches Err(e) && e.spec_kind() == k && *final(repo) == *old(repo),
        },
        block_position(old(repo)@.time_blocks, input.block_id, 0) < old(repo)@.time_blocks.len()
            && !is_last_of_task(
            old(repo)@.time_blocks,
            block_position(old(repo)@.time_blocks, input.block_id, 0),
        ) ==> (r matches Err(e) && e.spec_detail()
            == "Only the last block of a split task can be transitioned."@),
{
    let i = match find_block(&repo.time_blocks, input.block_id) {
        Some(i) => i,
        None => {
            return Err(not_found("no such block"));
        },
    };
    if !check_last_of_task(&repo.time_blocks, i) {
        return Err(invalid_input("Only the last block of a split task can be transitioned."));
    }
    let action = match TransitionAction::parse(input.action.as_str()) {
        Some(action) => action,
        None => {
            return Err(invalid_input("Invalid action"));
        },
    };
    let extra: i64 = match input.extra_minutes {
        Some(m) => m as i64,
        None => 0,
    };
    assert(repo@.time_blocks[i as int].wf());
    let old_end = repo.time_blocks[i].end_time;
    let ws = repo.time_blocks[i].workspace_id;
    let task_id = repo.time_blocks[i].task_id;
    let wide: i128 = match action {
        TransitionAction::CompleteOnTime => old_end as i128,
        TransitionAction::CompleteNow => now as i128,
        TransitionAction::CompleteAgo => (now as i128) - (extra as i128),
        TransitionAction::Delay => (old_end as i128) + (extra as i128),
    };
    if !(1440 <= wide && wide <= 5_258_966_399) {
        return Err(invalid_input("the block would end outside the calendar"));
    }
    let end: i64 = wide as i64;
    if matches!(action, TransitionAction::CompleteAgo) && end < repo.time_blocks[i].start_time {
        return Err(invalid_input("the block would end before it starts"));
    }
    let mut work = copy_blocks(&repo.time_blocks);
    if matches!(action, TransitionAction::Delay) {
        work[i].end_time = end;
        let ghost stretched = repo@.time_blocks.update(
            i as int,
            TimeBlock { end_time: end, ..repo@.time_blocks[i as int] },
        );
        assert(work@ =~= stretched);
        assert(blocks_wf(stretched, repo.next_block_id)) by {
            lemma_same_ids_wf(repo@.time_blocks, stretched, repo.next_block_id);
        }
        if !shift_rows(&mut work, ws, old_end, end - old_end) {
            return Err(invalid_input("a shifted block would leave the calendar"));
        }
        proof {
            lemma_shift_wf(stretched, repo.next_block_id, ws, old_end, end - old_end);
        }
    } else {
        if !shift_rows(&mut work, ws, old_end, end - old_end) {
            return Err(invalid_input("a shifted block would leave the calendar"));
        }
        let ghost shifted = work@;
        proof {
            lemma_shift_wf(repo@.time_blocks, repo.next_block_id, ws, old_end, end - old_end);
        }
        mark_rows_done(&mut work, task_id);
        let ghost done = work@;
        work[i].status = BlockStatus::Done;
        work[i].end_time = end;
        work[i].review_memo = input.review_memo;
        assert(work@ =~= done.update(i as int, completed(done[i as int], end, input.review_memo)));
        proof {
            assert forall|j: int| 0 <= j < work@.len() implies (#[trigger] work@[j]).id
                == shifted[j].id && work@[j].wf() by {
                assert(shifted[j].wf());
            }
            lemma_same_ids_wf(shifted, work@, repo.next_block_id);
        }
    }
    repo.time_blocks = work;
    Ok(())
}

/// Whether the outcome of a transition request depends on the current
/// instant: the block exists, is the last of its task, and is to be
/// completed now or a while ago. Completing a block on time and delaying
/// it go by the block's planned end alone.
pub open spec fn transition_reads_clock(t: Tables, input: TaskTransitionInput) -> bool {
    let i = block_position(t.time_blocks, input.block_id, 0);
    i < t.time_blocks.len() && is_last_of_task(t.time_blocks, i) && (TransitionAction::parse_spec(
        input.action@,
    ) == Some(TransitionAction::CompleteNow) || TransitionAction::parse_spec(input.action@) == Some(
        TransitionAction::CompleteAgo,
    ))
}

/// What a transition request by the clock comes to, given what the clock
/// was read as. With a reading it is what `process_transition_spec` says
/// for that instant. Without one, a request whose outcome depends on the
/// current instant fails with an internal error; any other request is
/// carried out as at every instant.
pub open spec fn process_transition_by_clock(
    t: Tables,
    input: TaskTransitionInput,
    reading: Option<i64>,
) -> Result<Tables, ErrorKind> {
    match reading {
        Some(now) => process_transition_spec(t, input, now),
        None => if transition_reads_clock(t, input) {
            Err(ErrorKind::Internal)
        } else {
            process_transition_spec(t, input, INSTANT_MIN)
        },
    }
}

/// A transition request that does not depend on the current instant
/// comes to the same at any two instants.
pub proof fn lemma_transition_ignores_clock(t: Tables, input: TaskTransitionInput, a: i64, b: i64)
    requires
        !transition_reads_clock(t, input),
    ensures
        process_transition_spec(t, input, a) == process_transition_spec(t, input, b),
{
}

/// Whether the outcome of a transition request depends on the current
/// instant.
pub fn check_transition_reads_clock(repo: &Repository, input: &TaskTransitionInput) -> (reads: bool)
    ensures
        reads == transition_reads_clock(repo@, *input),
{
    match find_block(&repo.time_blocks, input.block_id) {
        None => false,
        Some(i) => {
            if !check_last_of_task(&repo.time_blocks, i) {
                false
            } else {
                match TransitionAction::parse(input.action.as_str()) {
                    Some(TransitionAction::CompleteNow) => true,
                    Some(TransitionAction::CompleteAgo) => true,
                    _ => false,
                }
            }
        },
    }
}

/// Carries out a transition request at the instant the local clock
/// shows, as `process_transition_by_clock` says of what the clock is read
/// as. A request whose outcome does not depend on the current instant (a
/// completion on time, a delay, or a request that is rejected for its
/// block or its action) is carried out without the clock being read, so
/// its outcome is owed whatever the clock shows. For a completion now or
/// a while ago the clock is read; when it shows a time outside the stored
/// range the command fails with an internal error. A request that fails
/// changes nothing.
pub fn process_task_transition(repo: &mut Repository, input: TaskTransitionInput) -> (r: Result<
    (),
    AppError,
>)
    requires
        old(repo).wf(),
    ensures
        final(repo).wf(),
        !transition_reads_clock(old(repo)@, input) ==> forall|now: i64|
            ends_as(
                #[trigger] process_transition_spec(old(repo)@, input, now),
                *old(repo),
                *final(repo),
                r,
            ),
        exists|reading: Option<i64>|
            is_clock_reading(reading) && #[trigger] ends_as(
                process_transition_by_clock(old(repo)@, input, reading),
                *old(repo),
                *final(repo),
                r,
            ),
        block_position(old(repo)@.time_blocks, input.block_id, 0) < old(repo)@.time_blocks.len()
            && !is_last_of_task(
            old(repo)@.time_blocks,
            block_position(old(repo)@.time_blocks, input.block_id, 0),
        ) ==> (r matches Err(e) && e.spec_detail()
            == "Only the last block of a split task can be transitioned."@),
{
    if !check_transition_reads_clock(repo, &input) {
        // The outcome goes by the stored block alone, so the instant plays no part.
        let r = process_task_transition_at(repo, input, INSTANT_MIN);
        proof {
            assert forall|now: i64|
                ends_as(
                    #[trigger] process_transition_spec(old(repo)@, input, now),
                    *old(repo),
                    *repo,
                    r,
                ) by {
                lemma_transition_ignores_clock(old(repo)@, input, now, INSTANT_MIN);
            }
            assert(is_clock_reading(None::<i64>) && ends_as(
                process_transition_by_clock(old(repo)@, input, None::<i64>),
                *old(repo),
                *repo,
                r,
            ));
        }
        return r;
    }
    let reading = now_instant();
    match reading {
        Some(now) => {
            let r = process_task_transition_at(repo, input, now);
            assert(is_clock_reading(reading) && ends_as(
                process_transition_by_clock(old(repo)@, input, reading),
                *old(repo),
                *repo,
                r,
            ));
            r
        },
        None => {
            let r = Err(internal("the clock shows a time outside the calendar"));
            assert(is_clock_reading(reading) && ends_as(
                process_transition_by_clock(old(repo)@, input, reading),
                *old(repo),
                *repo,
                r,
            ));
            r
        },
    }
}

/// Sets the status of a block, as `update_block_status_spec` says. A
/// request that is rejected changes nothing.
pub fn update_block_status(repo: &mut Repository, block_id: i64, status: &str) -> (r: Result<
    (),
    AppError,
>)
    requires
        old(repo).wf(),
    ensures
        final(repo).wf(),
        match update_block_status_spec(old(repo)@, block_id, status@) {
            Ok(after) => r is Ok && final(repo)@ == after,
            Err(k) => r matches Err(e) && e.spec_kind() == k && *final(repo) == *old(repo),
        },
{
    let i = match find_block(&repo.time_blocks, block_id) {
        Some(i) => i,
        None => {
            return Err(not_found("no such block"));
        },
    };
    if !check_last_of_task(&repo.time_blocks, i) {
        return Err(invalid_input("Only the last block of a split task can be modified."));
    }
    match BlockStatus::parse(status) {
        Some(s) => {
            if matches!(s, BlockStatus::Unplugged) {
                return Err(invalid_input("a stored block cannot be unplugged"));
            }
            let ghost before = repo@.time_blocks;
            assert(before[i as int].wf());
            repo.time_blocks[i].status = s;
            proof {
                assert(repo@.time_blocks =~= before.update(
                    i as int,
                    TimeBlock { status: s, ..before[i as int] },
                ));
                assert forall|j: int| 0 <= j < repo@.time_blocks.len() implies (
                #[trigger] repo@.time_blocks[j]).id == before[j].id
                    && repo@.time_blocks[j].wf() by {
                    assert(before[j].wf());
                }
                lemma_same_ids_wf(before, repo@.time_blocks, repo.next_block_id);
            }
            Ok(())
        },
        None => Err(invalid_input("unknown status")),
    }
}

} // verus!
