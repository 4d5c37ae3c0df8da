//! Workspaces and their unplugged windows: creating a workspace,
//! replacing its settings together with its whole set of windows, and
//! reading them.

use vstd::prelude::*;
use vstd::string::*;
use crate::clock::time_to_minutes;
use crate::clock::time_to_minutes_spec;
use crate::error::AppError;
use crate::error::ErrorKind;
use crate::error::date_parse;
use crate::error::internal;
use crate::error::invalid_input;
use crate::error::not_found;
use crate::models::CreateWorkspaceInput;
use crate::models::UnpluggedTime;
use crate::models::UnpluggedTimeInput;
use crate::models::Workspace;
use crate::models::WorkspaceWithUnplugged;
use crate::models::text_is;
use crate::repository::Repository;
use crate::repository::Tables;
use crate::repository::find_workspace;
use crate::repository::unplugged_wf;
use crate::repository::workspace_position;

verus! {

/// The minutes of a window as a request writes it: a date-parse error
/// when one of its times is no `HH:MM`, an invalid-input error when it
/// does not end after it starts within the day.
pub open spec fn window_minutes(input: UnpluggedTimeInput) -> Result<(i64, i64), ErrorKind> {
    match (time_to_minutes_spec(input.start_time@), time_to_minutes_spec(input.end_time@)) {
        (Some(start), Some(end)) => if 0 <= start < end < 1440 {
            Ok((start, end))
        } else {
            Err(ErrorKind::InvalidInput)
        },
        _ => Err(ErrorKind::DateParse),
    }
}

/// The window row of a request's window.
pub open spec fn window_row(input: UnpluggedTimeInput, id: i64, ws: i64) -> UnpluggedTime {
    UnpluggedTime {
        id,
        workspace_id: ws,
        label: input.label,
        start_time: window_minutes(input)->Ok_0.0,
        end_time: window_minutes(input)->Ok_0.1,
    }
}

/// The first of the first `n` windows of a request that cannot be
/// stored, as the error it causes; `None` when all can.
pub open spec fn first_bad_window(inputs: Seq<UnpluggedTimeInput>, n: int) -> Option<ErrorKind>
    decreases n,
{
    if n <= 0 || n > inputs.len() {
        None
    } else {
        match first_bad_window(inputs, n - 1) {
            Some(k) => Some(k),
            None => match window_minutes(inputs[n - 1]) {
                Ok(_) => None,
                Err(k) => Some(k),
            },
        }
    }
}

/// The window rows of a request's windows, with ids counted up from
/// `first_id`.
pub open spec fn window_rows(inputs: Seq<UnpluggedTimeInput>, first_id: i64, ws: i64) -> Seq<
    UnpluggedTime,
> {
    Seq::new(inputs.len(), |k: int| window_row(inputs[k], (first_id + k) as i64, ws))
}

/// The workspace row of a request.
pub open spec fn workspace_row(input: CreateWorkspaceInput, id: i64) -> Workspace {
    Workspace {
        id,
        name: input.name,
        core_time_start: input.core_time_start,
        core_time_end: input.core_time_end,
        role_intro: input.role_intro,
    }
}

/// The test that keeps the windows of other workspaces.
pub open spec fn not_of_workspace(ws: i64) -> spec_fn(UnpluggedTime) -> bool {
    |w: UnpluggedTime| w.workspace_id != ws
}

/// The tables after a workspace has been created, and its id. Fails with
/// the error of the first window that cannot be stored, and with an
/// internal error when ids run out.
pub open spec fn create_workspace_spec(t: Tables, input: CreateWorkspaceInput) -> Result<
    (Tables, i64),
    ErrorKind,
> {
    match first_bad_window(input.unplugged_times@, input.unplugged_times@.len() as int) {
        Some(k) => Err(k),
        None => if t.next_workspace_id == i64::MAX || t.next_unplugged_id
            + input.unplugged_times@.len() > i64::MAX {
            Err(ErrorKind::Internal)
        } else {
            Ok(
                (
                    Tables {
                        workspaces: t.workspaces.push(workspace_row(input, t.next_workspace_id)),
                        unplugged_times: t.unplugged_times + window_rows(
                            input.unplugged_times@,
                            t.next_unplugged_id,
                            t.next_workspace_id,
                        ),
                        next_workspace_id: (t.next_workspace_id + 1) as i64,
                        next_unplugged_id: (t.next_unplugged_id
                            + input.unplugged_times@.len()) as i64,
                        ..t
                    },
                    t.next_workspace_id,
                ),
            )
        },
    }
}

/// The tables after the settings of a workspace have been replaced: its
/// row takes the request's values, all its windows are gone and the
/// request's windows are stored in their place. Fails with a not-found
/// error when there is no such workspace, with the error of the first
/// window that cannot be stored, and with an internal error when ids run
/// out.
pub open spec fn update_workspace_spec(t: Tables, id: i64, input: CreateWorkspaceInput) -> Result<
    Tables,
    ErrorKind,
> {
    let i = workspace_position(t.workspaces, id, 0);
    if i >= t.workspaces.len() {
        Err(ErrorKind::NotFound)
    } else {
        match first_bad_window(input.unplugged_times@, input.unplugged_times@.len() as int) {
            Some(k) => Err(k),
            None => if t.next_unplugged_id + input.unplugged_times@.len() > i64::MAX {
                Err(ErrorKind::Internal)
            } else {
                Ok(
                    Tables {
                        workspaces: t.workspaces.update(i, workspace_row(input, id)),
                        unplugged_times: t.unplugged_times.filter(not_of_workspace(id))
                            + window_rows(input.unplugged_times@, t.next_unplugged_id, id),
                        next_unplugged_id: (t.next_unplugged_id
                            + input.unplugged_times@.len()) as i64,
                        ..t
                    },
                )
            },
        }
    }
}

/// Window rows that remain after some were dropped can still be stored,
/// and each of them was among the rows before.
pub proof fn lemma_filter_windows_wf(
    windows: Seq<UnpluggedTime>,
    next_id: i64,
    keep: spec_fn(UnpluggedTime) -> bool,
)
    requires
        unplugged_wf(windows, next_id),
    ensures
        unplugged_wf(windows.filter(keep), next_id),
        forall|i: int|
            0 <= i < windows.filter(keep).len() ==> exists|j: int|
                0 <= j < windows.len() && windows[j] == #[trigger] windows.filter(keep)[i],
    decreases windows.len(),
{
    reveal(Seq::filter);
    if windows.len() > 0 {
        let front = windows.drop_last();
        let kept = front.filter(keep);
        assert(unplugged_wf(front, next_id)) by {
            assert forall|i: int| 0 <= i < front.len() implies (#[trigger] front[i]).wf()
                && front[i].id < next_id by {
                assert(windows[i].wf());
                assert(front[i] == windows[i]);
            }
            assert forall|i: int, j: int| 0 <= i < j < front.len() implies (#[trigger] front[i]).id
                < (#[trigger] front[j]).id by {
                assert(windows[i].id < windows[j].id);
            }
        }
        lemma_filter_windows_wf(front, next_id, keep);
        let after = windows.filter(keep);
        assert forall|i: int| 0 <= i < after.len() implies exists|j: int|
            0 <= j < windows.len() && windows[j] == #[trigger] after[i] by {
            if i < kept.len() {
                let j = choose|j: int| 0 <= j < front.len() && front[j] == kept[i];
                assert(windows[j] == after[i]);
            } else {
                assert(windows[windows.len() - 1] == after[i]);
            }
        }
        assert forall|i: int| 0 <= i < after.len() implies (#[trigger] after[i]).wf()
            && after[i].id < next_id by {
            let j = choose|j: int| 0 <= j < windows.len() && windows[j] == after[i];
            assert(windows[j].wf());
        }
        assert forall|i: int, j: int| 0 <= i < j < after.len() implies (#[trigger] after[i]).id < (
        #[trigger] after[j]).id by {
            if j < kept.len() {
                assert(kept[i].id < kept[j].id);
            } else {
                let k = choose|k: int| 0 <= k < front.len() && front[k] == kept[i];
                assert(windows[k].id < windows[windows.len() - 1].id);
            }
        }
    }
}

/// Window rows with new rows behind them, whose ids count up from the
/// next id, can be stored.
proof fn lemma_append_windows_wf(
    before: Seq<UnpluggedTime>,
    inputs: Seq<UnpluggedTimeInput>,
    first_id: i64,
    ws: i64,
)
    requires
        unplugged_wf(before, first_id),
        first_bad_window(inputs, inputs.len() as int) is None,
        first_id + inputs.len() <= i64::MAX,
    ensures
        unplugged_wf(before + window_rows(inputs, first_id, ws), (first_id + inputs.len()) as i64),
{
    let fresh = window_rows(inputs, first_id, ws);
    let all = before + fresh;
    assert forall|i: int| 0 <= i < all.len() implies (#[trigger] all[i]).wf() && all[i].id
        < first_id + inputs.len() && (i < before.len() ==> all[i].id < first_id) && (i
        >= before.len() ==> all[i].id == first_id + (i - before.len())) by {
        if i < before.len() {
            assert(before[i].wf());
        } else {
            let k = i - before.len();
            assert(all[i] == fresh[k]);
            lemma_no_bad_window(inputs, inputs.len() as int, k);
        }
    }
    assert forall|i: int, j: int| 0 <= i < j < all.len() implies (#[trigger] all[i]).id < (
    #[trigger] all[j]).id by {
        if j < before.len() {
            assert(before[i].id < before[j].id);
        }
    }
}

/// When none of the first `n` windows is bad, each of them can be read,
/// ends after it starts and lies within the day.
proof fn lemma_no_bad_window(inputs: Seq<UnpluggedTimeInput>, n: int, k: int)
    requires
        0 <= k < n <= inputs.len(),
        first_bad_window(inputs, n) is None,
    ensures
        window_minutes(inputs[k]) matches Ok((start, end)) && 0 <= start < end < 1440,
    decreases n,
{
    if k < n - 1 {
        lemma_no_bad_window(inputs, n - 1, k);
    }
}

/// Reads the minutes of a request's window.
fn read_window(input: &UnpluggedTimeInput) -> (r: Result<(i64, i64), AppError>)
    ensures
        match window_minutes(*input) {
            Ok(pair) => r == Ok::<(i64, i64), AppError>(pair) && 0 <= pair.0 < pair.1 < 1440,
            Err(k) => r matches Err(e) && e.spec_kind() == k,
        },
{
    let start = time_to_minutes(input.start_time.as_str());
    let end = time_to_minutes(input.end_time.as_str());
    match (start, end) {
        (Some(s), Some(e)) => {
            if 0 <= s && s < e && e < 1440 {
                Ok((s, e))
            } else {
                Err(invalid_input("an unplugged window must end after it starts"))
            }
        },
        _ => Err(date_parse("an unplugged time is not written as HH:MM")),
    }
}

/// Builds the window rows of a request.
fn build_windows(inputs: &Vec<UnpluggedTimeInput>, first_id: i64, ws: i64) -> (r: Result<
    (Vec<UnpluggedTime>, i64),
    AppError,
>)
    ensures
        match first_bad_window(inputs@, inputs@.len() as int) {
            Some(k) => r matches Err(e) && e.spec_kind() == k,
            None => if first_id + inputs@.len() > i64::MAX {
                r matches Err(e) && e.spec_kind() == ErrorKind::Internal
            } else {
                r matches Ok((rows, next)) && rows@ == window_rows(inputs@, first_id, ws) && next
                    == first_id + inputs@.len()
            },
        },
{
    let mut pairs: Vec<(i64, i64)> = Vec::new();
    let mut k: usize = 0;
    while k < inputs.len()
        invariant
            k <= inputs.len(),
            first_bad_window(inputs@, k as int) is None,
            pairs.len() == k,
            forall|j: int| 0 <= j < k ==> window_minutes(inputs@[j]) == Ok::<
                (i64, i64),
                ErrorKind,
            >(#[trigger] pairs[j]),
        decreases inputs.len() - k,
    {
        match read_window(&inputs[k]) {
            Ok(pair) => {
                pairs.push(pair);
            },
            Err(e) => {
                proof {
                    lemma_bad_window_stays(inputs@, k + 1, inputs@.len() as int);
                }
                return Err(e);
            },
        }
        k = k + 1;
    }
    let mut rows: Vec<UnpluggedTime> = Vec::new();
    let mut next = first_id;
    let mut k: usize = 0;
    while k < inputs.len()
        invariant
            k <= inputs.len(),
            pairs.len() == inputs.len(),
            first_bad_window(inputs@, inputs@.len() as int) is None,
            next == first_id + k,
            rows.len() == k,
            forall|j: int| 0 <= j < inputs.len() ==> window_minutes(inputs@[j]) == Ok::<
                (i64, i64),
                ErrorKind,
            >(#[trigger] pairs[j]),
            forall|j: int| 0 <= j < k ==> #[trigger] rows[j] == window_row(
                inputs@[j],
                (first_id + j) as i64,
                ws,
            ),
        decreases inputs.len() - k,
    {
        if next == i64::MAX {
            return Err(internal("window ids exhausted"));
        }
        let pair = pairs[k];
        rows.push(
            UnpluggedTime {
                id: next,
                workspace_id: ws,
                label: inputs[k].label.clone(),
                start_time: pair.0,
                end_time: pair.1,
            },
        );
        next = next + 1;
        k = k + 1;
    }
    assert(rows@ =~= window_rows(inputs@, first_id, ws));
    Ok((rows, next))
}

/// A bad window among the first `m` is a bad window among the first `n`.
proof fn lemma_bad_window_stays(inputs: Seq<UnpluggedTimeInput>, m: int, n: int)
    requires
        0 <= m <= n <= inputs.len(),
        first_bad_window(inputs, m) is Some,
    ensures
        first_bad_window(inputs, n) == first_bad_window(inputs, m),
    decreases n - m,
{
    if m < n {
        lemma_bad_window_stays(inputs, m, n - 1);
    }
}

/// Copies the window rows of other workspaces.
fn windows_without(windows: &Vec<UnpluggedTime>, ws: i64) -> (kept: Vec<UnpluggedTime>)
    ensures
        kept@ == windows@.filter(not_of_workspace(ws)),
{
    let mut kept: Vec<UnpluggedTime> = Vec::new();
    let mut i: usize = 0;
    proof {
        reveal(Seq::filter);
    }
    while i < windows.len()
        invariant
            i <= windows.len(),
            kept@ == windows@.take(i as int).filter(not_of_workspace(ws)),
        decreases windows.len() - i,
    {
        proof {
            reveal(Seq::filter);
            assert(windows@.take(i + 1).drop_last() =~= windows@.take(i as int));
        }
        if windows[i].workspace_id != ws {
            kept.push(windows[i].duplicate());
        }
        i = i + 1;
    }
    assert(windows@.take(i as int) =~= windows@);
    kept
}

/// Creates a workspace with its unplugged windows and gives its id, as
/// `create_workspace_spec` says. A request that fails changes nothing.
pub fn create_workspace(repo: &mut Repository, input: CreateWorkspaceInput) -> (r: Result<
    i64,
    AppError,
>)
    requires
        old(repo).wf(),
    ensures
        final(repo).wf(),
        match create_workspace_spec(old(repo)@, input) {
            Ok((after, id)) => r == Ok::<i64, AppError>(id) && final(repo)@ == after,
            Err(k) => r matches Err(e) && e.spec_kind() == k && *final(repo) == *old(repo),
        },
{
    let id = repo.next_workspace_id;
    let (mut rows, next_window) = match build_windows(
        &input.unplugged_times,
        repo.next_unplugged_id,
        id,
    ) {
        Ok(built) => built,
        Err(e) => {
            return Err(e);
        },
    };
    if id == i64::MAX {
        return Err(internal("workspace ids exhausted"));
    }
    proof {
        lemma_append_windows_wf(
            repo@.unplugged_times,
            input.unplugged_times@,
            repo.next_unplugged_id,
            id,
        );
        let all = repo@.workspaces.push(workspace_row(input, id));
        assert forall|a: int, b: int| 0 <= a < b < all.len() implies (#[trigger] all[a]).id < (
        #[trigger] all[b]).id by {
            if b < repo@.workspaces.len() {
                assert(repo@.workspaces[a].id < repo@.workspaces[b].id);
            } else {
                assert(repo@.workspaces[a].id < id);
            }
        }
    }
    repo.workspaces.push(
        Workspace {
            id,
            name: input.name,
            core_time_start: input.core_time_start,
            core_time_end: input.core_time_end,
            role_intro: input.role_intro,
        },
    );
    repo.unplugged_times.append(&mut rows);
    repo.next_workspace_id = id + 1;
    repo.next_unplugged_id = next_window;
    Ok(id)
}

/// Replaces the settings of a workspace and its whole set of unplugged
/// windows, as `update_workspace_spec` says. A request that fails changes
/// nothing.
pub fn update_workspace(repo: &mut Repository, id: i64, input: CreateWorkspaceInput) -> (r: Result<
    (),
    AppError,
>)
    requires
        old(repo).wf(),
    ensures
        final(repo).wf(),
        match update_workspace_spec(old(repo)@, id, input) {
            Ok(after) => r is Ok && final(repo)@ == after,
            Err(k) => r matches Err(e) && e.spec_kind() == k && *final(repo) == *old(repo),
        },
{
    let i = match find_workspace(&repo.workspaces, id) {
        Some(i) => i,
        None => {
            return Err(not_found("no such workspace"));
        },
    };
    let (mut rows, next_window) = match build_windows(
        &input.unplugged_times,
        repo.next_unplugged_id,
        id,
    ) {
        Ok(built) => built,
        Err(e) => {
            return Err(e);
        },
    };
    let mut kept = windows_without(&repo.unplugged_times, id);
    proof {
        lemma_filter_windows_wf(repo@.unplugged_times, repo.next_unplugged_id, not_of_workspace(id));
        lemma_append_windows_wf(kept@, input.unplugged_times@, repo.next_unplugged_id, id);
        let all = repo@.workspaces.update(i as int, workspace_row(input, id));
        assert forall|a: int| 0 <= a < all.len() implies (#[trigger] all[a]).id
            == repo@.workspaces[a].id by {
            if a == i {
                crate::repository::lemma_workspace_position(repo@.workspaces, id, 0);
            }
        }
        assert forall|a: int, b: int| 0 <= a < b < all.len() implies (#[trigger] all[a]).id < (
        #[trigger] all[b]).id by {
            assert(repo@.workspaces[a].id < repo@.workspaces[b].id);
        }
        assert forall|a: int| 0 <= a < all.len() implies (#[trigger] all[a]).id
            < repo.next_workspace_id by {
            assert(repo@.workspaces[a].id < repo.next_workspace_id);
        }
    }
    kept.append(&mut rows);
    let ghost before = repo@.workspaces;
    repo.workspaces[i].name = input.name;
    repo.workspaces[i].core_time_start = input.core_time_start;
    repo.workspaces[i].core_time_end = input.core_time_end;
    repo.workspaces[i].role_intro = input.role_intro;
    proof {
        crate::repository::lemma_workspace_position(before, id, 0);
        assert(repo@.workspaces =~= before.update(i as int, workspace_row(input, id)));
    }
    repo.unplugged_times = kept;
    repo.next_unplugged_id = next_window;
    Ok(())
}

/// Reads all workspaces, in table order.
pub fn get_workspaces(repo: &Repository) -> (list: Vec<Workspace>)
    ensures
        list@ == repo@.workspaces,
{
    let mut list: Vec<Workspace> = Vec::new();
    let mut i: usize = 0;
    while i < repo.workspaces.len()
        invariant
            i <= repo.workspaces.len(),
            list@ == repo@.workspaces.take(i as int),
        decreases repo.workspaces.len() - i,
    {
        list.push(repo.workspaces[i].duplicate());
        i = i + 1;
        assert(list@ =~= repo@.workspaces.take(i as int));
    }
    assert(repo@.workspaces.take(i as int) =~= repo@.workspaces);
    list
}

/// Reads the workspace with the given id, if there is one.
pub fn get_workspace(repo: &Repository, id: i64) -> (r: Option<Workspace>)
    ensures
        match r {
            Some(w) => workspace_position(repo@.workspaces, id, 0) < repo@.workspaces.len() && w
                == repo@.workspaces[workspace_position(repo@.workspaces, id, 0)],
            None => workspace_position(repo@.workspaces, id, 0) == repo@.workspaces.len(),
        },
{
    match find_workspace(&repo.workspaces, id) {
        Some(i) => Some(repo.workspaces[i].duplicate()),
        None => None,
    }
}

/// The windows of workspace `ws` among the first `n` windows, in table
/// order.
pub open spec fn windows_of(windows: Seq<UnpluggedTime>, ws: i64, n: int) -> Seq<UnpluggedTime>
    decreases n,
{
    if n <= 0 || n > windows.len() {
        Seq::<UnpluggedTime>::empty()
    } else {
        let rest = windows_of(windows, ws, n - 1);
        if windows[n - 1].workspace_id == ws {
            rest.push(windows[n - 1])
        } else {
            rest
        }
    }
}

/// Reads the unplugged windows of workspace `ws`, in table order.
pub fn get_unplugged_times(repo: &Repository, ws: i64) -> (list: Vec<UnpluggedTime>)
    ensures
        list@ == windows_of(repo@.unplugged_times, ws, repo@.unplugged_times.len() as int),
{
    let mut list: Vec<UnpluggedTime> = Vec::new();
    let mut i: usize = 0;
    while i < repo.unplugged_times.len()
        invariant
            i <= repo.unplugged_times.len(),
            list@ == windows_of(repo@.unplugged_times, ws, i as int),
        decreases repo.unplugged_times.len() - i,
    {
        if repo.unplugged_times[i].workspace_id == ws {
            list.push(repo.unplugged_times[i].duplicate());
        }
        i = i + 1;
    }
    list
}

/// Reads the workspace created last, with its unplugged windows; `None`
/// when there is no workspace.
pub fn get_current_workspace(repo: &Repository) -> (r: Option<WorkspaceWithUnplugged>)
    ensures
        match r {
            Some(found) => repo@.workspaces.len() > 0 && found.workspace
                == repo@.workspaces.last() && found.unplugged_times@ == windows_of(
                repo@.unplugged_times,
                repo@.workspaces.last().id,
                repo@.unplugged_times.len() as int,
            ),
            None => repo@.workspaces.len() == 0,
        },
{
    let n = repo.workspaces.len();
    if n == 0 {
        None
    } else {
        let workspace = repo.workspaces[n - 1].duplicate();
        let unplugged_times = get_unplugged_times(repo, workspace.id);
        Some(WorkspaceWithUnplugged { workspace, unplugged_times })
    }
}

/// A core time as stored: an empty text counts as none.
pub open spec fn normalized_core_time(text: Option<String>) -> Option<String> {
    match text {
        Some(s) => if s@.len() == 0 {
            None
        } else {
            Some(s)
        },
        None => None,
    }
}

/// Turns an empty core time into none.
pub fn normalize_core_time(text: Option<String>) -> (r: Option<String>)
    ensures
        r == normalized_core_time(text),
{
    match text {
        Some(s) => {
            proof {
                reveal_strlit("");
            }
            if text_is(s.as_str(), "") {
                None
            } else {
                assert(s@.len() != 0) by {
                    if s@.len() == 0 {
                        assert(s@ =~= ""@);
                    }
                }
                Some(s)
            }
        },
        None => None,
    }
}

} // verus!
