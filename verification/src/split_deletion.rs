//! Deleting a split task, either with everything that belongs to it or
//! keeping its past as independent finished tasks.

use vstd::prelude::*;
use crate::error::AppError;
use crate::error::ErrorKind;
use crate::error::internal;
use crate::error::not_found;
use crate::inbox::delete_task;
use crate::inbox::delete_task_spec;
use crate::inbox::lemma_filter_blocks_wf;
use crate::inbox::lemma_filter_tasks_wf;
use crate::inbox::other_task;
use crate::inbox::rows_without_id;
use crate::models::BlockStatus;
use crate::models::Task;
use crate::models::TimeBlock;
use crate::models::copy_text_opt;
use crate::repository::Repository;
use crate::repository::Tables;
use crate::repository::blocks_wf;
use crate::repository::find_task;
use crate::repository::lemma_task_position;
use crate::repository::same_task;
use crate::repository::task_position;
use crate::repository::tasks_wf;
use crate::transitioner::lemma_same_ids_wf;

verus! {

/// The test that drops the planned blocks of a task and keeps all other
/// blocks.
pub open spec fn not_planned_of(task_id: i64) -> spec_fn(TimeBlock) -> bool {
    |b: TimeBlock| !(b.task_id == Some(task_id) && b.status == BlockStatus::Will)
}

/// How many of the first `n` blocks belong to the task.
pub open spec fn count_of_task(blocks: Seq<TimeBlock>, task_id: i64, n: int) -> int
    decreases n,
{
    if n <= 0 || n > blocks.len() {
        0
    } else {
        count_of_task(blocks, task_id, n - 1) + if blocks[n - 1].task_id == Some(task_id) {
            1int
        } else {
            0int
        }
    }
}

/// The count of a task's blocks grows with the number of blocks counted.
pub proof fn lemma_count_grows(blocks: Seq<TimeBlock>, task_id: i64, m: int, n: int)
    requires
        0 <= m <= n <= blocks.len(),
    ensures
        0 <= count_of_task(blocks, task_id, m) <= count_of_task(blocks, task_id, n) <= n,
    decreases n,
{
    if m < n {
        lemma_count_grows(blocks, task_id, m, n - 1);
    } else if n > 0 {
        lemma_count_grows(blocks, task_id, m - 1, n - 1);
    }
}

/// The block at position `j` after the blocks of the task have been
/// handed to new tasks: a block of the task is finished and belongs to
/// the new task numbered by its rank among the task's blocks.
pub open spec fn handed_over(blocks: Seq<TimeBlock>, task_id: i64, first_new: i64, j: int)
    -> TimeBlock {
    if blocks[j].task_id == Some(task_id) {
        TimeBlock {
            task_id: Some((first_new + count_of_task(blocks, task_id, j)) as i64),
            status: BlockStatus::Done,
            ..blocks[j]
        }
    } else {
        blocks[j]
    }
}

/// The blocks after each block of the task has been handed to a new task
/// of its own.
pub open spec fn repointed(blocks: Seq<TimeBlock>, task_id: i64, first_new: i64) -> Seq<
    TimeBlock,
> {
    Seq::new(blocks.len(), |j: int| handed_over(blocks, task_id, first_new, j))
}

/// The new task that takes over one past block of `task`.
pub open spec fn heir(task: Task, id: i64) -> Task {
    Task {
        id,
        workspace_id: task.workspace_id,
        title: task.title,
        planning_memo: task.planning_memo,
        estimated_minutes: 0,
    }
}

/// The `n` new tasks that take over the past blocks of `task`.
pub open spec fn heirs(task: Task, first_new: i64, n: int) -> Seq<Task> {
    Seq::new(n as nat, |k: int| heir(task, (first_new + k) as i64))
}

/// The tables after a split task has been deleted.
///
/// Without keeping the past, the task and all its blocks are gone. With
/// it, the planned blocks of the task are gone, each remaining block of
/// the task is finished and belongs to a new task of its own that has the
/// old task's workspace, title and memo and no estimate, and the old task
/// is gone. Keeping the past fails with a not-found error when there is
/// no such task and with an internal error when the task ids run out.
pub open spec fn split_deletion_spec(t: Tables, task_id: i64, keep_past: bool) -> Result<
    Tables,
    ErrorKind,
> {
    if !keep_past {
        Ok(delete_task_spec(t, task_id))
    } else {
        let i = task_position(t.tasks, task_id, 0);
        if i >= t.tasks.len() {
            Err(ErrorKind::NotFound)
        } else {
            let kept = t.time_blocks.filter(not_planned_of(task_id));
            let n = count_of_task(kept, task_id, kept.len() as int);
            if t.next_task_id + n > i64::MAX {
                Err(ErrorKind::Internal)
            } else {
                Ok(
                    Tables {
                        tasks: t.tasks.filter(other_task(task_id)) + heirs(
                            t.tasks[i],
                            t.next_task_id,
                            n,
                        ),
                        time_blocks: repointed(kept, task_id, t.next_task_id),
                        next_task_id: (t.next_task_id + n) as i64,
                        ..t
                    },
                )
            }
        }
    }
}

/// Copies the rows that are not planned blocks of the task.
fn rows_of_past(blocks: &Vec<TimeBlock>, task_id: i64) -> (kept: Vec<TimeBlock>)
    ensures
        kept@ == blocks@.filter(not_planned_of(task_id)),
{
    let mut kept: Vec<TimeBlock> = Vec::new();
    let mut i: usize = 0;
    proof {
        reveal(Seq::filter);
    }
    while i < blocks.len()
        invariant
            i <= blocks.len(),
            kept@ == blocks@.take(i as int).filter(not_planned_of(task_id)),
        decreases blocks.len() - i,
    {
        proof {
            reveal(Seq::filter);
            assert(blocks@.take(i + 1).drop_last() =~= blocks@.take(i as int));
        }
        let planned = same_task(&blocks[i].task_id, &Some(task_id)) && matches!(
            blocks[i].status,
            BlockStatus::Will
        );
        if !planned {
            kept.push(blocks[i].duplicate());
        }
        i = i + 1;
    }
    assert(blocks@.take(i as int) =~= blocks@);
    kept
}

/// Deletes a split task, as `split_deletion_spec` says. A request that
/// fails changes nothing.
pub fn handle_split_task_deletion(repo: &mut Repository, task_id: i64, keep_past: bool) -> (r:
    Result<(), AppError>)
    requires
        old(repo).wf(),
    ensures
        final(repo).wf(),
        match split_deletion_spec(old(repo)@, task_id, keep_past) {
            Ok(after) => r is Ok && final(repo)@ == after,
            Err(k) => r matches Err(e) && e.spec_kind() == k && *final(repo) == *old(repo),
        },
{
    if !keep_past {
        return delete_task(repo, task_id);
    }
    let i = match find_task(&repo.tasks, task_id) {
        Some(i) => i,
        None => {
            return Err(not_found("no such task"));
        },
    };
    proof {
        lemma_task_position(repo@.tasks, task_id, 0);
        lemma_filter_blocks_wf(repo@.time_blocks, repo.next_block_id, not_planned_of(task_id));
        lemma_filter_tasks_wf(repo@.tasks, repo.next_task_id, other_task(task_id));
    }
    let mut work = rows_of_past(&repo.time_blocks, task_id);
    let mut tasks = rows_without_id(&repo.tasks, task_id);
    let ghost kept = work@;
    let ghost old_tasks = tasks@;
    let first_new = repo.next_task_id;
    let mut next = repo.next_task_id;
    let n = work.len();
    let mut j: usize = 0;
    while j < n
        invariant
            n == work.len(),
            work.len() == kept.len(),
            j <= n,
            i < repo.tasks.len(),
            *repo == *old(repo),
            repo.wf(),
            keep_past,
            i == task_position(repo@.tasks, task_id, 0),
            kept == repo@.time_blocks.filter(not_planned_of(task_id)),
            old_tasks == repo@.tasks.filter(other_task(task_id)),
            blocks_wf(kept, repo.next_block_id),
            tasks_wf(old_tasks, repo.next_task_id),
            first_new == repo.next_task_id,
            next == first_new + count_of_task(kept, task_id, j as int),
            forall|k: int| 0 <= k < j ==> work[k] == handed_over(kept, task_id, first_new, k),
            forall|k: int| j <= k < n ==> work[k] == kept[k],
            tasks@ == old_tasks + heirs(
                repo@.tasks[i as int],
                first_new,
                count_of_task(kept, task_id, j as int),
            ),
        decreases n - j,
    {
        proof {
            lemma_count_grows(kept, task_id, j as int, j + 1);
            lemma_count_grows(kept, task_id, j + 1, n as int);
        }
        if same_task(&work[j].task_id, &Some(task_id)) {
            if next == i64::MAX {
                return Err(internal("task ids exhausted"));
            }
            work[j].task_id = Some(next);
            work[j].status = BlockStatus::Done;
            let ghost before = tasks@;
            tasks.push(
                Task {
                    id: next,
                    workspace_id: repo.tasks[i].workspace_id,
                    title: repo.tasks[i].title.clone(),
                    planning_memo: copy_text_opt(&repo.tasks[i].planning_memo),
                    estimated_minutes: 0,
                },
            );
            assert(tasks@ =~= old_tasks + heirs(
                repo@.tasks[i as int],
                first_new,
                count_of_task(kept, task_id, j + 1),
            ));
            next = next + 1;
        }
        j = j + 1;
    }
    assert(work@ =~= repointed(kept, task_id, first_new));
    proof {
        let count = count_of_task(kept, task_id, n as int);
        lemma_count_grows(kept, task_id, 0, n as int);
        assert forall|k: int| 0 <= k < work@.len() implies (#[trigger] work@[k]).id == kept[k].id
            && work@[k].wf() by {
            assert(kept[k].wf());
        }
        lemma_same_ids_wf(kept, work@, repo.next_block_id);
        let all = tasks@;
        let fresh = heirs(repo@.tasks[i as int], first_new, count);
        assert forall|a: int| 0 <= a < all.len() implies (#[trigger] all[a]).id < next && (a
            < old_tasks.len() ==> all[a].id < first_new) && (a >= old_tasks.len() ==> all[a].id
            == first_new + (a - old_tasks.len())) by {
            if a < old_tasks.len() {
                assert(all[a] == old_tasks[a]);
            } else {
                assert(all[a] == fresh[a - old_tasks.len()]);
            }
        }
        assert forall|a: int, b: int| 0 <= a < b < all.len() implies (#[trigger] all[a]).id < (
        #[trigger] all[b]).id by {
            if b < old_tasks.len() {
                assert(all[a] == old_tasks[a]);
                assert(all[b] == old_tasks[b]);
                assert(old_tasks[a].id < old_tasks[b].id);
            }
        }
    }
    repo.time_blocks = work;
    repo.tasks = tasks;
    repo.next_task_id = next;
    Ok(())
}

} // verus!
