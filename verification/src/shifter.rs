//! The shifter: moves the planned blocks of a workspace that start at or
//! after a pivot instant by a signed number of minutes.

use vstd::prelude::*;
use crate::clock::valid_instant;
use crate::clock::add_minutes;
use crate::error::AppError;
use crate::error::ErrorKind;
use crate::error::invalid_input;
use crate::models::BlockStatus;
use crate::models::TimeBlock;
use crate::models::copy_blocks;
use crate::repository::Repository;
use crate::repository::Tables;
use crate::repository::blocks_wf;

verus! {

/// Whether the shifter moves block `b`: it belongs to workspace `ws`, is
/// planned, and starts at the pivot or later.
pub open spec fn is_shifted(b: TimeBlock, ws: i64, pivot: i64) -> bool {
    b.workspace_id == ws && b.status == BlockStatus::Will && b.start_time >= pivot
}

/// Block `b` with both ends moved by `delta` minutes.
pub open spec fn moved_by(b: TimeBlock, delta: int) -> TimeBlock {
    TimeBlock {
        start_time: (b.start_time + delta) as i64,
        end_time: (b.end_time + delta) as i64,
        ..b
    }
}

/// What the shifter makes of one block.
pub open spec fn shift_one(b: TimeBlock, ws: i64, pivot: i64, delta: int) -> TimeBlock {
    if is_shifted(b, ws, pivot) {
        moved_by(b, delta)
    } else {
        b
    }
}

/// What the shifter makes of one block, as a function of the block.
pub open spec fn shift_by(ws: i64, pivot: i64, delta: int) -> spec_fn(TimeBlock) -> TimeBlock {
    |b: TimeBlock| shift_one(b, ws, pivot, delta)
}

/// Whether every block that the shifter moves stays within the stored
/// range.
pub open spec fn shift_fits(blocks: Seq<TimeBlock>, ws: i64, pivot: i64, delta: int) -> bool {
    forall|i: int|
        0 <= i < blocks.len() && is_shifted(#[trigger] blocks[i], ws, pivot) ==> valid_instant(
            blocks[i].start_time + delta,
        ) && valid_instant(blocks[i].end_time + delta)
}

/// The blocks after the shift.
pub open spec fn shift_blocks(blocks: Seq<TimeBlock>, ws: i64, pivot: i64, delta: int) -> Seq<
    TimeBlock,
> {
    blocks.map_values(shift_by(ws, pivot, delta))
}

/// The blocks after the shift, when every moved block stays within the
/// stored range.
pub open spec fn shift_future_spec(
    blocks: Seq<TimeBlock>,
    ws: i64,
    pivot: i64,
    delta: int,
) -> Option<Seq<TimeBlock>> {
    if shift_fits(blocks, ws, pivot, delta) {
        Some(shift_blocks(blocks, ws, pivot, delta))
    } else {
        None
    }
}

/// A shift that fits keeps the blocks storable.
pub proof fn lemma_shift_wf(blocks: Seq<TimeBlock>, next_id: i64, ws: i64, pivot: i64, delta: int)
    requires
        blocks_wf(blocks, next_id),
        shift_fits(blocks, ws, pivot, delta),
    ensures
        blocks_wf(shift_blocks(blocks, ws, pivot, delta), next_id),
{
    let after = shift_blocks(blocks, ws, pivot, delta);
    assert forall|i: int| 0 <= i < after.len() implies (#[trigger] after[i]).wf() && after[i].id
        == blocks[i].id by {
        assert(blocks[i].wf());
    }
    assert forall|i: int, j: int| 0 <= i < j < after.len() implies (#[trigger] after[i]).id < (
    #[trigger] after[j]).id by {
        assert(blocks[i].id < blocks[j].id);
    }
}

/// Shifts the rows in place. When it reports failure the rows are left
/// partly shifted, so it runs on a working copy only.
pub(crate) fn shift_rows(blocks: &mut Vec<TimeBlock>, ws: i64, pivot: i64, delta: i64) -> (ok: bool)
    requires
        forall|i: int| 0 <= i < old(blocks).len() ==> (#[trigger] old(blocks)[i]).wf(),
    ensures
        ok == shift_fits(old(blocks)@, ws, pivot, delta as int),
        ok ==> final(blocks)@ == shift_blocks(old(blocks)@, ws, pivot, delta as int),
{
    let n = blocks.len();
    let mut i: usize = 0;
    while i < n
        invariant
            n == blocks.len(),
            blocks.len() == old(blocks).len(),
            i <= n,
            forall|j: int| 0 <= j < old(blocks).len() ==> (#[trigger] old(blocks)[j]).wf(),
            forall|j: int|
                0 <= j < i ==> blocks[j] == shift_one(
                    #[trigger] old(blocks)[j],
                    ws,
                    pivot,
                    delta as int,
                ),
            forall|j: int| i <= j < n ==> blocks[j] == old(blocks)[j],
            forall|j: int|
                0 <= j < i && is_shifted(#[trigger] old(blocks)[j], ws, pivot) ==> valid_instant(
                    old(blocks)[j].start_time + delta,
                ) && valid_instant(old(blocks)[j].end_time + delta),
        decreases n - i,
    {
        assert(old(blocks)[i as int].wf());
        if blocks[i].workspace_id == ws && matches!(blocks[i].status, BlockStatus::Will)
            && blocks[i].start_time >= pivot {
            let moved_start = add_minutes(blocks[i].start_time, delta);
            let moved_end = add_minutes(blocks[i].end_time, delta);
            match (moved_start, moved_end) {
                (Some(start), Some(end)) => {
                    blocks[i].start_time = start;
                    blocks[i].end_time = end;
                },
                _ => {
                    assert(is_shifted(old(blocks)[i as int], ws, pivot));
                    return false;
                },
            }
        }
        i = i + 1;
    }
    assert(blocks@ =~= shift_blocks(old(blocks)@, ws, pivot, delta as int));
    true
}

/// Adds `delta` minutes to the start and the end of every planned block
/// of workspace `ws` that starts at `pivot` or later; a block that starts
/// exactly at the pivot is moved. Blocks are not fitted around unplugged
/// windows again. When a moved block would leave the stored range, the
/// command fails with an invalid-input error and nothing is changed.
pub fn shift_future_blocks(repo: &mut Repository, ws: i64, pivot: i64, delta: i64) -> (r: Result<
    (),
    AppError,
>)
    requires
        old(repo).wf(),
    ensures
        final(repo).wf(),
        match shift_future_spec(old(repo)@.time_blocks, ws, pivot, delta as int) {
            Some(blocks) => r is Ok && final(repo)@ == (Tables {
                time_blocks: blocks,
                ..old(repo)@
            }),
            None => r matches Err(e) && e.spec_kind() == ErrorKind::InvalidInput && *final(repo)
                == *old(repo),
        },
{
    let mut work = copy_blocks(&repo.time_blocks);
    if shift_rows(&mut work, ws, pivot, delta) {
        proof {
            lemma_shift_wf(repo@.time_blocks, repo.next_block_id, ws, pivot, delta as int);
        }
        repo.time_blocks = work;
        Ok(())
    } else {
        Err(invalid_input("a shifted block would leave the calendar"))
    }
}

} // verus!
