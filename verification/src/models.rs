//! The data model: workspaces, their unplugged windows, tasks and time
//! blocks, and the requests that commands carry.

use vstd::prelude::*;
use vstd::string::*;
use crate::clock::valid_instant;
use crate::clock::is_valid_instant;

verus! {

/// Where a block stands in its life.
#[derive(Clone, Copy, Debug, PartialEq, Eq, Structural)]
pub enum BlockStatus {
    /// Planned, not started.
    Will,
    /// Being worked on.
    Now,
    /// A slice cut short by an urgent task; frozen.
    Pending,
    /// Finished.
    Done,
    /// A view row that shows an unplugged window; never stored.
    Unplugged,
}

/// What a transition does to the last block of a task.
#[derive(Clone, Copy, Debug, PartialEq, Eq, Structural)]
pub enum TransitionAction {
    CompleteOnTime,
    CompleteNow,
    CompleteAgo,
    Delay,
}

/// Whether two texts hold the same characters.
pub fn text_is(text: &str, other: &str) -> (same: bool)
    ensures
        same == (text@ == other@),
{
    let a = text.to_owned();
    let b = other.to_owned();
    a == b
}

impl BlockStatus {
    /// The stored name of a status.
    pub open spec fn name(self) -> Seq<char> {
        match self {
            BlockStatus::Will => "WILL"@,
            BlockStatus::Now => "NOW"@,
            BlockStatus::Pending => "PENDING"@,
            BlockStatus::Done => "DONE"@,
            BlockStatus::Unplugged => "UNPLUGGED"@,
        }
    }

    /// The status a stored name denotes.
    pub open spec fn parse_spec(text: Seq<char>) -> Option<BlockStatus> {
        if text == "WILL"@ {
            Some(BlockStatus::Will)
        } else if text == "NOW"@ {
            Some(BlockStatus::Now)
        } else if text == "PENDING"@ {
            Some(BlockStatus::Pending)
        } else if text == "DONE"@ {
            Some(BlockStatus::Done)
        } else if text == "UNPLUGGED"@ {
            Some(BlockStatus::Unplugged)
        } else {
            None
        }
    }

    /// Reads a status from its stored name.
    pub fn parse(text: &str) -> (r: Option<BlockStatus>)
        ensures
            r == Self::parse_spec(text@),
    {
        if text_is(text, "WILL") {
            Some(BlockStatus::Will)
        } else if text_is(text, "NOW") {
            Some(BlockStatus::Now)
        } else if text_is(text, "PENDING") {
            Some(BlockStatus::Pending)
        } else if text_is(text, "DONE") {
            Some(BlockStatus::Done)
        } else if text_is(text, "UNPLUGGED") {
            Some(BlockStatus::Unplugged)
        } else {
            None
        }
    }

    /// Writes a status as its stored name.
    pub fn as_text(self) -> (text: String)
        ensures
            text@ == self.name(),
    {
        match self {
            BlockStatus::Will => String::from_str("WILL"),
            BlockStatus::Now => String::from_str("NOW"),
            BlockStatus::Pending => String::from_str("PENDING"),
            BlockStatus::Done => String::from_str("DONE"),
            BlockStatus::Unplugged => String::from_str("UNPLUGGED"),
        }
    }
}

impl TransitionAction {
    /// The action a request names.
    pub open spec fn parse_spec(text: Seq<char>) -> Option<TransitionAction> {
        if text == "COMPLETE_ON_TIME"@ {
            Some(TransitionAction::CompleteOnTime)
        } else if text == "COMPLETE_NOW"@ {
            Some(TransitionAction::CompleteNow)
        } else if text == "COMPLETE_AGO"@ {
            Some(TransitionAction::CompleteAgo)
        } else if text == "DELAY"@ {
            Some(TransitionAction::Delay)
        } else {
            None
        }
    }

    /// Reads an action from the name a request carries.
    pub fn parse(text: &str) -> (r: Option<TransitionAction>)
        ensures
            r == Self::parse_spec(text@),
    {
        if text_is(text, "COMPLETE_ON_TIME") {
            Some(TransitionAction::CompleteOnTime)
        } else if text_is(text, "COMPLETE_NOW") {
            Some(TransitionAction::CompleteNow)
        } else if text_is(text, "COMPLETE_AGO") {
            Some(TransitionAction::CompleteAgo)
        } else if text_is(text, "DELAY") {
            Some(TransitionAction::Delay)
        } else {
            None
        }
    }
}

/// A working context.
#[derive(Debug)]
pub struct Workspace {
    pub id: i64,
    pub name: String,
    /// Start of the core-time window, `HH:MM`.
    pub core_time_start: Option<String>,
    /// End of the core-time window, `HH:MM`.
    pub core_time_end: Option<String>,
    pub role_intro: Option<String>,
}

/// A window of a workspace that recurs every day and takes no block.
#[derive(Debug)]
pub struct UnpluggedTime {
    pub id: i64,
    pub workspace_id: i64,
    pub label: String,
    /// First minute of the window, counted from midnight.
    pub start_time: i64,
    /// First minute after the window, counted from midnight.
    pub end_time: i64,
}

/// A unit of intended work.
#[derive(Debug)]
pub struct Task {
    pub id: i64,
    pub workspace_id: i64,
    pub title: String,
    pub planning_memo: Option<String>,
    /// Estimated minutes; zero means unknown.
    pub estimated_minutes: i64,
}

/// A contiguous placement of a task on the timeline.
#[derive(Debug)]
pub struct TimeBlock {
    pub id: i64,
    pub task_id: Option<i64>,
    pub workspace_id: i64,
    pub title: String,
    /// First minute of the block, as an instant.
    pub start_time: i64,
    /// First minute after the block, as an instant.
    pub end_time: i64,
    pub status: BlockStatus,
    pub review_memo: Option<String>,
    pub is_urgent: bool,
}

/// The request to add a task.
#[derive(Debug)]
pub struct AddTaskInput {
    pub workspace_id: i64,
    pub title: String,
    pub hours: i32,
    pub minutes: i32,
    pub planning_memo: Option<String>,
    pub is_urgent: bool,
    pub is_inbox: Option<bool>,
}

/// The request to move the last block of a task on in its life.
#[derive(Debug)]
pub struct TaskTransitionInput {
    pub block_id: i64,
    /// `COMPLETE_ON_TIME`, `COMPLETE_NOW`, `COMPLETE_AGO` or `DELAY`.
    pub action: String,
    pub extra_minutes: Option<i32>,
    pub review_memo: Option<String>,
}

/// An unplugged window as a request writes it.
#[derive(Debug)]
pub struct UnpluggedTimeInput {
    pub label: String,
    /// `HH:MM`.
    pub start_time: String,
    /// `HH:MM`.
    pub end_time: String,
}

/// The request to create a workspace or to replace its settings.
#[derive(Debug)]
pub struct CreateWorkspaceInput {
    pub name: String,
    pub core_time_start: Option<String>,
    pub core_time_end: Option<String>,
    pub role_intro: Option<String>,
    pub unplugged_times: Vec<UnpluggedTimeInput>,
}

/// A workspace together with its unplugged windows.
#[derive(Debug)]
pub struct WorkspaceWithUnplugged {
    pub workspace: Workspace,
    pub unplugged_times: Vec<UnpluggedTime>,
}

/// The request to plan a task into the free time of one day.
#[derive(Debug)]
pub struct TaskInput {
    pub title: String,
    pub planning_memo: Option<String>,
    pub duration_minutes: i64,
    pub is_urgent: bool,
}

/// Copies an optional text.
pub fn copy_text_opt(text: &Option<String>) -> (copy: Option<String>)
    ensures
        copy == *text,
{
    match text {
        Some(s) => Some(s.clone()),
        None => None,
    }
}

impl Workspace {
    /// A duplicate of the workspace row.
    pub fn duplicate(&self) -> (copy: Workspace)
        ensures
            copy == *self,
    {
        Workspace {
            id: self.id,
            name: self.name.clone(),
            core_time_start: copy_text_opt(&self.core_time_start),
            core_time_end: copy_text_opt(&self.core_time_end),
            role_intro: copy_text_opt(&self.role_intro),
        }
    }
}

impl UnpluggedTime {
    /// Whether the window is a non-empty stretch within one day.
    pub open spec fn wf(&self) -> bool {
        0 <= self.start_time < self.end_time < 1440
    }

    /// A duplicate of the window row.
    pub fn duplicate(&self) -> (copy: UnpluggedTime)
        ensures
            copy == *self,
    {
        UnpluggedTime {
            id: self.id,
            workspace_id: self.workspace_id,
            label: self.label.clone(),
            start_time: self.start_time,
            end_time: self.end_time,
        }
    }
}

impl Task {
    /// A duplicate of the task row.
    pub fn duplicate(&self) -> (copy: Task)
        ensures
            copy == *self,
    {
        Task {
            id: self.id,
            workspace_id: self.workspace_id,
            title: self.title.clone(),
            planning_memo: copy_text_opt(&self.planning_memo),
            estimated_minutes: self.estimated_minutes,
        }
    }
}

impl TimeBlock {
    /// Whether the block can be stored: it belongs to a task, is no view
    /// row, and both its ends are instants of the stored range.
    pub open spec fn wf(&self) -> bool {
        &&& self.task_id is Some
        &&& self.status != BlockStatus::Unplugged
        &&& valid_instant(self.start_time as int)
        &&& valid_instant(self.end_time as int)
    }

    /// The length of the block in minutes.
    pub open spec fn duration(&self) -> int {
        self.end_time - self.start_time
    }

    /// Whether the block can be stored.
    pub fn is_wf(&self) -> (ok: bool)
        ensures
            ok == self.wf(),
    {
        self.task_id.is_some() && !matches!(self.status, BlockStatus::Unplugged)
            && is_valid_instant(self.start_time) && is_valid_instant(self.end_time)
    }

    /// A duplicate of the block row.
    pub fn duplicate(&self) -> (copy: TimeBlock)
        ensures
            copy == *self,
    {
        TimeBlock {
            id: self.id,
            task_id: self.task_id,
            workspace_id: self.workspace_id,
            title: self.title.clone(),
            start_time: self.start_time,
            end_time: self.end_time,
            status: self.status,
            review_memo: copy_text_opt(&self.review_memo),
            is_urgent: self.is_urgent,
        }
    }
}

/// Copies a list of blocks.
pub fn copy_blocks(blocks: &Vec<TimeBlock>) -> (copy: Vec<TimeBlock>)
    ensures
        copy@ == blocks@,
{
    let mut copy: Vec<TimeBlock> = Vec::new();
    let mut i: usize = 0;
    while i < blocks.len()
        invariant
            i <= blocks.len(),
            copy@ == blocks@.take(i as int),
        decreases blocks.len() - i,
    {
        copy.push(blocks[i].duplicate());
        i = i + 1;
        assert(copy@ =~= blocks@.take(i as int));
    }
    assert(blocks@.take(blocks.len() as int) =~= blocks@);
    copy
}

} // verus!
