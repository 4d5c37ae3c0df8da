//! The repository: the four tables of the scheduling core held in memory,
//! with the reads that the commands share. A command works on a copy of
//! the rows it changes and stores the copy only when it has succeeded, so
//! a failed command leaves every table as it was.

use vstd::prelude::*;
use crate::error::AppError;
use crate::error::ErrorKind;
use crate::models::BlockStatus;
use crate::models::Task;
use crate::models::TimeBlock;
use crate::models::UnpluggedTime;
use crate::models::Workspace;
use crate::placer::windows_wf;

verus! {

/// The stored state of the scheduler.
#[derive(Debug)]
pub struct Repository {
    pub workspaces: Vec<Workspace>,
    pub unplugged_times: Vec<UnpluggedTime>,
    pub tasks: Vec<Task>,
    pub time_blocks: Vec<TimeBlock>,
    /// The id the next workspace gets.
    pub next_workspace_id: i64,
    /// The id the next unplugged window gets.
    pub next_unplugged_id: i64,
    /// The id the next task gets.
    pub next_task_id: i64,
    /// The id the next block gets.
    pub next_block_id: i64,
}

/// The stored state as mathematical sequences of rows, each table in the
/// order in which its rows were inserted.
pub struct Tables {
    pub workspaces: Seq<Workspace>,
    pub unplugged_times: Seq<UnpluggedTime>,
    pub tasks: Seq<Task>,
    pub time_blocks: Seq<TimeBlock>,
    pub next_workspace_id: i64,
    pub next_unplugged_id: i64,
    pub next_task_id: i64,
    pub next_block_id: i64,
}

impl View for Repository {
    type V = Tables;

    open spec fn view(&self) -> Tables {
        Tables {
            workspaces: self.workspaces@,
            unplugged_times: self.unplugged_times@,
            tasks: self.tasks@,
            time_blocks: self.time_blocks@,
            next_workspace_id: self.next_workspace_id,
            next_unplugged_id: self.next_unplugged_id,
            next_task_id: self.next_task_id,
            next_block_id: self.next_block_id,
        }
    }
}

/// Whether the blocks can be stored: each is well formed, and their ids
/// grow along the table and stay below the next id to hand out.
pub open spec fn blocks_wf(blocks: Seq<TimeBlock>, next_id: i64) -> bool {
    &&& forall|i: int| 0 <= i < blocks.len() ==> (#[trigger] blocks[i]).wf()
    &&& forall|i: int| 0 <= i < blocks.len() ==> (#[trigger] blocks[i]).id < next_id
    &&& forall|i: int, j: int|
        0 <= i < j < blocks.len() ==> (#[trigger] blocks[i]).id < (#[trigger] blocks[j]).id
}

/// Whether the ids of the tasks grow along the table and stay below the
/// next id to hand out.
pub open spec fn tasks_wf(tasks: Seq<Task>, next_id: i64) -> bool {
    &&& forall|i: int| 0 <= i < tasks.len() ==> (#[trigger] tasks[i]).id < next_id
    &&& forall|i: int, j: int|
        0 <= i < j < tasks.len() ==> (#[trigger] tasks[i]).id < (#[trigger] tasks[j]).id
}

/// Whether the ids of the workspaces grow along the table and stay below
/// the next id to hand out.
pub open spec fn workspaces_wf(workspaces: Seq<Workspace>, next_id: i64) -> bool {
    &&& forall|i: int| 0 <= i < workspaces.len() ==> (#[trigger] workspaces[i]).id < next_id
    &&& forall|i: int, j: int|
        0 <= i < j < workspaces.len() ==> (#[trigger] workspaces[i]).id < (
        #[trigger] workspaces[j]).id
}

/// Whether the windows are well formed, and their ids grow along the
/// table and stay below the next id to hand out.
pub open spec fn unplugged_wf(windows: Seq<UnpluggedTime>, next_id: i64) -> bool {
    &&& windows_wf(windows)
    &&& forall|i: int| 0 <= i < windows.len() ==> (#[trigger] windows[i]).id < next_id
    &&& forall|i: int, j: int|
        0 <= i < j < windows.len() ==> (#[trigger] windows[i]).id < (#[trigger] windows[j]).id
}

impl Tables {
    /// The invariant of the stored state.
    pub open spec fn wf(self) -> bool {
        &&& workspaces_wf(self.workspaces, self.next_workspace_id)
        &&& unplugged_wf(self.unplugged_times, self.next_unplugged_id)
        &&& tasks_wf(self.tasks, self.next_task_id)
        &&& blocks_wf(self.time_blocks, self.next_block_id)
    }
}

/// Whether a command ended as `wanted` asks: with success and the wanted
/// tables stored, or with an error of the wanted kind and the repository
/// as it was before.
pub open spec fn ends_as(
    wanted: Result<Tables, ErrorKind>,
    before: Repository,
    after: Repository,
    r: Result<(), AppError>,
) -> bool {
    match wanted {
        Ok(tables) => r is Ok && after@ == tables,
        Err(kind) => r matches Err(e) && e.spec_kind() == kind && after == before,
    }
}

/// The position of the block with the given id, searching from `from`;
/// the number of blocks when there is none.
pub open spec fn block_position(blocks: Seq<TimeBlock>, id: i64, from: int) -> int
    decreases blocks.len() - from,
{
    if from < 0 || from >= blocks.len() {
        blocks.len() as int
    } else if blocks[from].id == id {
        from
    } else {
        block_position(blocks, id, from + 1)
    }
}

/// The position of the task with the given id, searching from `from`;
/// the number of tasks when there is none.
pub open spec fn task_position(tasks: Seq<Task>, id: i64, from: int) -> int
    decreases tasks.len() - from,
{
    if from < 0 || from >= tasks.len() {
        tasks.len() as int
    } else if tasks[from].id == id {
        from
    } else {
        task_position(tasks, id, from + 1)
    }
}

/// The position of the workspace with the given id, searching from
/// `from`; the number of workspaces when there is none.
pub open spec fn workspace_position(workspaces: Seq<Workspace>, id: i64, from: int) -> int
    decreases workspaces.len() - from,
{
    if from < 0 || from >= workspaces.len() {
        workspaces.len() as int
    } else if workspaces[from].id == id {
        from
    } else {
        workspace_position(workspaces, id, from + 1)
    }
}

/// What `block_position` finds has the id, and no block before it has.
pub proof fn lemma_block_position(blocks: Seq<TimeBlock>, id: i64, from: int)
    requires
        0 <= from <= blocks.len(),
    ensures
        from <= block_position(blocks, id, from) <= blocks.len(),
        block_position(blocks, id, from) < blocks.len() ==> blocks[block_position(
            blocks,
            id,
            from,
        )].id == id,
        forall|i: int|
            from <= i < block_position(blocks, id, from) ==> (#[trigger] blocks[i]).id != id,
    decreases blocks.len() - from,
{
    if from < blocks.len() && blocks[from].id != id {
        lemma_block_position(blocks, id, from + 1);
    }
}

/// What `task_position` finds has the id, and no task before it has.
pub proof fn lemma_task_position(tasks: Seq<Task>, id: i64, from: int)
    requires
        0 <= from <= tasks.len(),
    ensures
        from <= task_position(tasks, id, from) <= tasks.len(),
        task_position(tasks, id, from) < tasks.len() ==> tasks[task_position(tasks, id, from)].id
            == id,
        forall|i: int| from <= i < task_position(tasks, id, from) ==> (#[trigger] tasks[i]).id != id,
    decreases tasks.len() - from,
{
    if from < tasks.len() && tasks[from].id != id {
        lemma_task_position(tasks, id, from + 1);
    }
}

/// What `workspace_position` finds has the id, and no workspace before it
/// has.
pub proof fn lemma_workspace_position(workspaces: Seq<Workspace>, id: i64, from: int)
    requires
        0 <= from <= workspaces.len(),
    ensures
        from <= workspace_position(workspaces, id, from) <= workspaces.len(),
        workspace_position(workspaces, id, from) < workspaces.len() ==> workspaces[workspace_position(
            workspaces,
            id,
            from,
        )].id == id,
        forall|i: int|
            from <= i < workspace_position(workspaces, id, from) ==> (#[trigger] workspaces[i]).id
                != id,
    decreases workspaces.len() - from,
{
    if from < workspaces.len() && workspaces[from].id != id {
        lemma_workspace_position(workspaces, id, from + 1);
    }
}

/// Whether a block counts for the latest end of workspace `ws`.
pub open spec fn counts_for_latest(b: TimeBlock, ws: i64) -> bool {
    b.workspace_id == ws && b.status != BlockStatus::Unplugged
}

/// The latest end among the blocks of workspace `ws` that are no view
/// rows; `None` when the workspace has no such block.
pub open spec fn latest_end(blocks: Seq<TimeBlock>, ws: i64) -> Option<i64>
    decreases blocks.len(),
{
    if blocks.len() == 0 {
        None
    } else {
        let rest = latest_end(blocks.drop_last(), ws);
        let b = blocks.last();
        if counts_for_latest(b, ws) {
            match rest {
                Some(e) => if e >= b.end_time {
                    Some(e)
                } else {
                    Some(b.end_time)
                },
                None => Some(b.end_time),
            }
        } else {
            rest
        }
    }
}

/// The latest end is the end of a block of the workspace, and no block of
/// the workspace ends later.
pub proof fn lemma_latest_end(blocks: Seq<TimeBlock>, ws: i64)
    ensures
        match latest_end(blocks, ws) {
            Some(e) => {
                &&& exists|i: int|
                    0 <= i < blocks.len() && counts_for_latest(#[trigger] blocks[i], ws)
                        && blocks[i].end_time == e
                &&& forall|i: int|
                    0 <= i < blocks.len() && counts_for_latest(#[trigger] blocks[i], ws)
                        ==> blocks[i].end_time <= e
            },
            None => forall|i: int|
                0 <= i < blocks.len() ==> !counts_for_latest(#[trigger] blocks[i], ws),
        },
    decreases blocks.len(),
{
    if blocks.len() > 0 {
        let front = blocks.drop_last();
        lemma_latest_end(front, ws);
        let n = blocks.len() - 1;
        assert forall|i: int| 0 <= i < n implies front[i] == blocks[i] by {}
        match latest_end(front, ws) {
            Some(e) => {
                let w = choose|i: int|
                    0 <= i < front.len() && counts_for_latest(#[trigger] front[i], ws)
                        && front[i].end_time == e;
                assert(blocks[w] == front[w]);
                if counts_for_latest(blocks[n], ws) && e < blocks[n].end_time {
                    assert(counts_for_latest(blocks[n], ws) && blocks[n].end_time
                        == blocks[n].end_time);
                }
                assert forall|i: int|
                    0 <= i < blocks.len() && counts_for_latest(
                        #[trigger] blocks[i],
                        ws,
                    ) implies blocks[i].end_time <= latest_end(blocks, ws)->0 by {
                    if i < n {
                        assert(front[i] == blocks[i]);
                    }
                }
            },
            None => {
                assert forall|i: int| 0 <= i < n implies !counts_for_latest(
                    #[trigger] blocks[i],
                    ws,
                ) by {
                    assert(front[i] == blocks[i]);
                }
                if counts_for_latest(blocks[n], ws) {
                    assert(counts_for_latest(blocks[n], ws) && blocks[n].end_time
                        == blocks[n].end_time);
                }
            },
        }
    }
}

/// Whether a block is the one being worked on in workspace `ws`.
pub open spec fn is_active_in(b: TimeBlock, ws: i64) -> bool {
    b.workspace_id == ws && b.status == BlockStatus::Now
}

/// The position of the first block of workspace `ws` that is being worked
/// on, searching from `from`; the number of blocks when there is none.
pub open spec fn active_position(blocks: Seq<TimeBlock>, ws: i64, from: int) -> int
    decreases blocks.len() - from,
{
    if from < 0 || from >= blocks.len() {
        blocks.len() as int
    } else if is_active_in(blocks[from], ws) {
        from
    } else {
        active_position(blocks, ws, from + 1)
    }
}

/// What `active_position` finds is being worked on in the workspace, and
/// no block before it is.
pub proof fn lemma_active_position(blocks: Seq<TimeBlock>, ws: i64, from: int)
    requires
        0 <= from <= blocks.len(),
    ensures
        from <= active_position(blocks, ws, from) <= blocks.len(),
        active_position(blocks, ws, from) < blocks.len() ==> is_active_in(
            blocks[active_position(blocks, ws, from)],
            ws,
        ),
        forall|i: int|
            from <= i < active_position(blocks, ws, from) ==> !is_active_in(
                #[trigger] blocks[i],
                ws,
            ),
    decreases blocks.len() - from,
{
    if from < blocks.len() && !is_active_in(blocks[from], ws) {
        lemma_active_position(blocks, ws, from + 1);
    }
}

/// Whether the block at position `i` is the last of its task: no block of
/// the same task has a greater id.
pub open spec fn is_last_of_task(blocks: Seq<TimeBlock>, i: int) -> bool {
    forall|j: int|
        0 <= j < blocks.len() && (#[trigger] blocks[j]).task_id == blocks[i].task_id
            ==> blocks[j].id <= blocks[i].id
}

/// Whether some block belongs to the task.
pub open spec fn task_has_block(blocks: Seq<TimeBlock>, task_id: i64) -> bool {
    exists|j: int| 0 <= j < blocks.len() && (#[trigger] blocks[j]).task_id == Some(task_id)
}

impl Repository {
    /// The invariant of the stored state.
    pub open spec fn wf(&self) -> bool {
        self@.wf()
    }

    /// An empty repository whose ids start at one.
    pub fn new() -> (repo: Repository)
        ensures
            repo.wf(),
            repo@.workspaces.len() == 0,
            repo@.unplugged_times.len() == 0,
            repo@.tasks.len() == 0,
            repo@.time_blocks.len() == 0,
            repo@.next_workspace_id == 1,
            repo@.next_unplugged_id == 1,
            repo@.next_task_id == 1,
            repo@.next_block_id == 1,
    {
        Repository {
            workspaces: Vec::new(),
            unplugged_times: Vec::new(),
            tasks: Vec::new(),
            time_blocks: Vec::new(),
            next_workspace_id: 1,
            next_unplugged_id: 1,
            next_task_id: 1,
            next_block_id: 1,
        }
    }

    /// Checks the invariant of the stored state.
    pub fn is_wf(&self) -> (ok: bool)
        ensures
            ok == self.wf(),
    {
        let mut i: usize = 0;
        while i < self.workspaces.len()
            invariant
                i <= self.workspaces.len(),
                forall|k: int| 0 <= k < i ==> (#[trigger] self.workspaces[k]).id < self.next_workspace_id,
                forall|k: int, l: int|
                    0 <= k < l < i ==> (#[trigger] self.workspaces[k]).id < (#[trigger] self.workspaces[l]).id,
            decreases self.workspaces.len() - i,
        {
            let ok = self.workspaces[i].id < self.next_workspace_id && (i == 0 || self.workspaces[i
                - 1].id < self.workspaces[i].id);
            if !ok {
                return false;
            }
            i = i + 1;
        }
        let mut i: usize = 0;
        while i < self.unplugged_times.len()
            invariant
                i <= self.unplugged_times.len(),
                workspaces_wf(self.workspaces@, self.next_workspace_id),
                forall|k: int| 0 <= k < i ==> (#[trigger] self.unplugged_times[k]).id < self.next_unplugged_id,
                forall|k: int, l: int|
                    0 <= k < l < i ==> (#[trigger] self.unplugged_times[k]).id < (#[trigger] self.unplugged_times[l]).id,
                forall|k: int| 0 <= k < i ==> (#[trigger] self.unplugged_times[k]).wf(),
            decreases self.unplugged_times.len() - i,
        {
            let w = &self.unplugged_times[i];
            let ok = w.id < self.next_unplugged_id && 0 <= w.start_time && w.start_time
                < w.end_time && w.end_time < 1440 && (i == 0 || self.unplugged_times[i - 1].id
                < w.id);
            if !ok {
                return false;
            }
            i = i + 1;
        }
        let mut i: usize = 0;
        while i < self.tasks.len()
            invariant
                i <= self.tasks.len(),
                workspaces_wf(self.workspaces@, self.next_workspace_id),
                unplugged_wf(self.unplugged_times@, self.next_unplugged_id),
                forall|k: int| 0 <= k < i ==> (#[trigger] self.tasks[k]).id < self.next_task_id,
                forall|k: int, l: int|
                    0 <= k < l < i ==> (#[trigger] self.tasks[k]).id < (#[trigger] self.tasks[l]).id,
            decreases self.tasks.len() - i,
        {
            let ok = self.tasks[i].id < self.next_task_id && (i == 0 || self.tasks[i - 1].id
                < self.tasks[i].id);
            if !ok {
                return false;
            }
            i = i + 1;
        }
        let mut i: usize = 0;
        while i < self.time_blocks.len()
            invariant
                i <= self.time_blocks.len(),
                workspaces_wf(self.workspaces@, self.next_workspace_id),
                unplugged_wf(self.unplugged_times@, self.next_unplugged_id),
                tasks_wf(self.tasks@, self.next_task_id),
                forall|k: int| 0 <= k < i ==> (#[trigger] self.time_blocks[k]).id < self.next_block_id,
                forall|k: int, l: int|
                    0 <= k < l < i ==> (#[trigger] self.time_blocks[k]).id < (#[trigger] self.time_blocks[l]).id,
                forall|k: int| 0 <= k < i ==> (#[trigger] self.time_blocks[k]).wf(),
            decreases self.time_blocks.len() - i,
        {
            let b = &self.time_blocks[i];
            let ok = b.is_wf() && b.id < self.next_block_id && (i == 0 || self.time_blocks[i
                - 1].id < b.id);
            if !ok {
                return false;
            }
            i = i + 1;
        }
        true
    }
}

/// Finds the block with the given id.
pub fn find_block(blocks: &Vec<TimeBlock>, id: i64) -> (r: Option<usize>)
    ensures
        match r {
            Some(i) => i < blocks.len() && i == block_position(blocks@, id, 0),
            None => block_position(blocks@, id, 0) == blocks.len(),
        },
{
    let mut i: usize = 0;
    while i < blocks.len()
        invariant
            i <= blocks.len(),
            block_position(blocks@, id, 0) == block_position(blocks@, id, i as int),
        decreases blocks.len() - i,
    {
        if blocks[i].id == id {
            return Some(i);
        }
        i = i + 1;
    }
    None
}

/// Finds the task with the given id.
pub fn find_task(tasks: &Vec<Task>, id: i64) -> (r: Option<usize>)
    ensures
        match r {
            Some(i) => i < tasks.len() && i == task_position(tasks@, id, 0),
            None => task_position(tasks@, id, 0) == tasks.len(),
        },
{
    let mut i: usize = 0;
    while i < tasks.len()
        invariant
            i <= tasks.len(),
            task_position(tasks@, id, 0) == task_position(tasks@, id, i as int),
        decreases tasks.len() - i,
    {
        if tasks[i].id == id {
            return Some(i);
        }
        i = i + 1;
    }
    None
}

/// Finds the workspace with the given id.
pub fn find_workspace(workspaces: &Vec<Workspace>, id: i64) -> (r: Option<usize>)
    ensures
        match r {
            Some(i) => i < workspaces.len() && i == workspace_position(workspaces@, id, 0),
            None => workspace_position(workspaces@, id, 0) == workspaces.len(),
        },
{
    let mut i: usize = 0;
    while i < workspaces.len()
        invariant
            i <= workspaces.len(),
            workspace_position(workspaces@, id, 0) == workspace_position(
                workspaces@,
                id,
                i as int,
            ),
        decreases workspaces.len() - i,
    {
        if workspaces[i].id == id {
            return Some(i);
        }
        i = i + 1;
    }
    None
}

/// Reads the latest end among the stored blocks of a workspace.
pub fn read_latest_end(blocks: &Vec<TimeBlock>, ws: i64) -> (r: Option<i64>)
    ensures
        r == latest_end(blocks@, ws),
{
    let mut best: Option<i64> = None;
    let mut i: usize = 0;
    while i < blocks.len()
        invariant
            i <= blocks.len(),
            best == latest_end(blocks@.take(i as int), ws),
        decreases blocks.len() - i,
    {
        let b = &blocks[i];
        proof {
            assert(blocks@.take(i + 1).drop_last() =~= blocks@.take(i as int));
        }
        if b.workspace_id == ws && !matches!(b.status, BlockStatus::Unplugged) {
            match best {
                Some(e) => {
                    if e < b.end_time {
                        best = Some(b.end_time);
                    }
                },
                None => {
                    best = Some(b.end_time);
                },
            }
        }
        i = i + 1;
    }
    assert(blocks@.take(i as int) =~= blocks@);
    best
}

/// Finds the block of a workspace that is being worked on.
pub fn find_active(blocks: &Vec<TimeBlock>, ws: i64) -> (r: Option<usize>)
    ensures
        match r {
            Some(i) => i < blocks.len() && i == active_position(blocks@, ws, 0),
            None => active_position(blocks@, ws, 0) == blocks.len(),
        },
{
    let mut i: usize = 0;
    while i < blocks.len()
        invariant
            i <= blocks.len(),
            active_position(blocks@, ws, 0) == active_position(blocks@, ws, i as int),
        decreases blocks.len() - i,
    {
        if blocks[i].workspace_id == ws && matches!(blocks[i].status, BlockStatus::Now) {
            return Some(i);
        }
        i = i + 1;
    }
    None
}

/// Whether the block at position `i` is the last of its task.
pub fn check_last_of_task(blocks: &Vec<TimeBlock>, i: usize) -> (last: bool)
    requires
        i < blocks.len(),
    ensures
        last == is_last_of_task(blocks@, i as int),
{
    let mut j: usize = 0;
    while j < blocks.len()
        invariant
            i < blocks.len(),
            j <= blocks.len(),
            forall|k: int|
                0 <= k < j && (#[trigger] blocks[k]).task_id == blocks[i as int].task_id
                    ==> blocks[k].id <= blocks[i as int].id,
        decreases blocks.len() - j,
    {
        if same_task(&blocks[j].task_id, &blocks[i].task_id) && blocks[j].id > blocks[i].id {
            return false;
        }
        j = j + 1;
    }
    true
}

/// Whether two optional task ids are the same.
pub fn same_task(a: &Option<i64>, b: &Option<i64>) -> (same: bool)
    ensures
        same == (*a == *b),
{
    match (a, b) {
        (Some(x), Some(y)) => *x == *y,
        (None, None) => true,
        _ => false,
    }
}

/// Whether some stored block belongs to the task.
pub fn check_task_has_block(blocks: &Vec<TimeBlock>, task_id: i64) -> (has: bool)
    ensures
        has == task_has_block(blocks@, task_id),
{
    let mut j: usize = 0;
    while j < blocks.len()
        invariant
            j <= blocks.len(),
            forall|k: int| 0 <= k < j ==> (#[trigger] blocks[k]).task_id != Some(task_id),
        decreases blocks.len() - j,
    {
        if same_task(&blocks[j].task_id, &Some(task_id)) {
            return true;
        }
        j = j + 1;
    }
    false
}

} // verus!
