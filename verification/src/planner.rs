//! The day planner: finds the first free start among the blocks of a day
//! and splits a task around the day's unplugged windows. Times are
//! minutes since midnight.

use vstd::prelude::*;
use crate::daytime::minutes_to_time;
use crate::daytime::minutes_to_time_spec;
use crate::error::AppError;
use crate::error::ErrorKind;
use crate::error::internal;
use crate::error::invalid_input;
use crate::models::TaskInput;

verus! {

/// A list of stretches in order of start with one more put in: behind
/// every stretch that starts no later than it does.
pub open spec fn insert_stretch(sorted: Seq<(i64, i64)>, s: (i64, i64)) -> Seq<(i64, i64)>
    decreases sorted.len(),
{
    if sorted.len() == 0 {
        seq![s]
    } else if sorted.last().0 <= s.0 {
        sorted.push(s)
    } else {
        insert_stretch(sorted.drop_last(), s).push(sorted.last())
    }
}

/// The stretches in order of start; stretches that start together keep
/// the order they had.
pub open spec fn sort_stretches(list: Seq<(i64, i64)>) -> Seq<(i64, i64)>
    decreases list.len(),
{
    if list.len() == 0 {
        list
    } else {
        insert_stretch(sort_stretches(list.drop_last()), list.last())
    }
}

/// Whether the stretches are in order of start.
pub open spec fn ordered_stretches(list: Seq<(i64, i64)>) -> bool {
    forall|i: int, j: int| 0 <= i < j < list.len() ==> (#[trigger] list[i]).0 <= (#[trigger] list[j]).0
}

/// Putting a stretch into an ordered list keeps the list ordered and adds
/// just that stretch to what it holds.
pub proof fn lemma_insert_stretch(sorted: Seq<(i64, i64)>, s: (i64, i64))
    requires
        ordered_stretches(sorted),
    ensures
        ordered_stretches(insert_stretch(sorted, s)),
        insert_stretch(sorted, s).to_multiset() == sorted.to_multiset().insert(s),
    decreases sorted.len(),
{
    broadcast use vstd::seq_lib::group_to_multiset_ensures;

    if sorted.len() == 0 {
        assert(sorted =~= Seq::<(i64, i64)>::empty());
        assert(seq![s] =~= Seq::<(i64, i64)>::empty().push(s));
    } else if sorted.last().0 <= s.0 {
    } else {
        let front = sorted.drop_last();
        assert(ordered_stretches(front)) by {
            assert forall|i: int, j: int| 0 <= i < j < front.len() implies (#[trigger] front[i]).0
                <= (#[trigger] front[j]).0 by {
                assert(sorted[i].0 <= sorted[j].0);
            }
        }
        lemma_insert_stretch(front, s);
        let mid = insert_stretch(front, s);
        let out = mid.push(sorted.last());
        assert forall|i: int, j: int| 0 <= i < j < out.len() implies (#[trigger] out[i]).0 <= (
        #[trigger] out[j]).0 by {
            if j < mid.len() {
                assert(mid[i].0 <= mid[j].0);
            } else {
                assert(mid.to_multiset().count(mid[i]) > 0);
                if mid[i] != s {
                    assert(front.to_multiset().count(mid[i]) > 0);
                    assert(front.contains(mid[i]));
                    let k = choose|k: int| 0 <= k < front.len() && front[k] == mid[i];
                    assert(sorted[k].0 <= sorted[sorted.len() - 1].0);
                }
            }
        }
        assert(sorted =~= front.push(sorted.last()));
    }
}

/// Sorting puts the stretches in order of start and neither adds nor
/// drops one.
pub proof fn lemma_sort_stretches(list: Seq<(i64, i64)>)
    ensures
        ordered_stretches(sort_stretches(list)),
        sort_stretches(list).to_multiset() == list.to_multiset(),
    decreases list.len(),
{
    broadcast use vstd::seq_lib::group_to_multiset_ensures;

    if list.len() > 0 {
        lemma_sort_stretches(list.drop_last());
        lemma_insert_stretch(sort_stretches(list.drop_last()), list.last());
        assert(list =~= list.drop_last().push(list.last()));
    }
}

proof fn lemma_insert_stretch_position(sorted: Seq<(i64, i64)>, s: (i64, i64), p: int)
    requires
        0 <= p <= sorted.len(),
        forall|k: int| p <= k < sorted.len() ==> (#[trigger] sorted[k]).0 > s.0,
        p > 0 ==> sorted[p - 1].0 <= s.0,
    ensures
        insert_stretch(sorted, s) == sorted.insert(p, s),
    decreases sorted.len() - p,
{
    if sorted.len() == 0 {
        assert(seq![s] =~= sorted.insert(p, s));
    } else if p == sorted.len() {
        assert(sorted.push(s) =~= sorted.insert(p, s));
    } else {
        assert(sorted[sorted.len() - 1].0 > s.0);
        let front = sorted.drop_last();
        assert forall|k: int| p <= k < front.len() implies (#[trigger] front[k]).0 > s.0 by {
            assert(sorted[k].0 > s.0);
        }
        lemma_insert_stretch_position(front, s, p);
        assert(front.insert(p, s).push(sorted.last()) =~= sorted.insert(p, s));
    }
}

/// Sorts stretches by their start; stretches that start together keep
/// their order.
pub fn sorted_by_start(list: &Vec<(i64, i64)>) -> (sorted: Vec<(i64, i64)>)
    ensures
        sorted@ == sort_stretches(list@),
        ordered_stretches(sorted@),
        sorted@.to_multiset() == list@.to_multiset(),
{
    let mut sorted: Vec<(i64, i64)> = Vec::new();
    let mut i: usize = 0;
    while i < list.len()
        invariant
            i <= list.len(),
            sorted@ == sort_stretches(list@.take(i as int)),
        decreases list.len() - i,
    {
        let s = list[i];
        let mut p: usize = sorted.len();
        while p > 0 && sorted[p - 1].0 > s.0
            invariant
                p <= sorted.len(),
                forall|k: int| p <= k < sorted.len() ==> (#[trigger] sorted[k]).0 > s.0,
            decreases p,
        {
            p = p - 1;
        }
        proof {
            lemma_insert_stretch_position(sorted@, s, p as int);
            assert(list@.take(i + 1).drop_last() =~= list@.take(i as int));
        }
        sorted.insert(p, s);
        i = i + 1;
    }
    proof {
        assert(list@.take(i as int) =~= list@);
        lemma_sort_stretches(list@);
    }
    sorted
}

/// The stretches of a task from `task_start` to `task_end` that the
/// first `n` windows leave, and where the task then starts. Each window,
/// in order, that shares a minute with what is left of the task ends a
/// stretch at its start, when the task starts before it, and moves the
/// start of the task to its end.
pub open spec fn split_prefix(task_start: i64, task_end: i64, windows: Seq<(i64, i64)>, n: int)
    -> (Seq<(i64, i64)>, i64)
    decreases n,
{
    if n <= 0 || n > windows.len() {
        (Seq::<(i64, i64)>::empty(), task_start)
    } else {
        let (out, start) = split_prefix(task_start, task_end, windows, n - 1);
        let w = windows[n - 1];
        if start < w.1 && task_end > w.0 {
            if start < w.0 {
                (out.push((start, w.0)), w.1)
            } else {
                (out, w.1)
            }
        } else {
            (out, start)
        }
    }
}

/// The stretches of a task from `task_start` to `task_end` around the
/// windows taken in order of their start: what `split_prefix` gives for
/// all the windows, and the rest of the task when some is left.
pub open spec fn split_spec(task_start: i64, task_end: i64, windows: Seq<(i64, i64)>) -> Seq<
    (i64, i64),
> {
    let sorted = sort_stretches(windows);
    let (out, start) = split_prefix(task_start, task_end, sorted, sorted.len() as int);
    if start < task_end {
        out.push((start, task_end))
    } else {
        out
    }
}

/// Splits a task from `task_start` to `task_end` around the unplugged
/// windows of the day, each given by its start and its end.
pub fn split_minutes(task_start: i64, task_end: i64, unplugged: &Vec<(i64, i64)>) -> (blocks: Vec<
    (i64, i64),
>)
    ensures
        blocks@ == split_spec(task_start, task_end, unplugged@),
{
    let sorted = sorted_by_start(unplugged);
    let mut out: Vec<(i64, i64)> = Vec::new();
    let mut start: i64 = task_start;
    let mut n: usize = 0;
    while n < sorted.len()
        invariant
            n <= sorted.len(),
            (out@, start) == split_prefix(task_start, task_end, sorted@, n as int),
        decreases sorted.len() - n,
    {
        let w = sorted[n];
        if start < w.1 && task_end > w.0 {
            if start < w.0 {
                out.push((start, w.0));
            }
            start = w.1;
        }
        n = n + 1;
    }
    if start < task_end {
        out.push((start, task_end));
    }
    out
}

/// Splits a task from `task_start` to `task_end` around the unplugged
/// windows of the day and writes each block as a pair of `HH:MM` times.
pub fn split_around_unplugged(task_start: i64, task_end: i64, unplugged: &Vec<(i64, i64)>) -> (blocks:
    Vec<(String, String)>)
    ensures
        blocks@.len() == split_spec(task_start, task_end, unplugged@).len(),
        forall|k: int|
            0 <= k < blocks@.len() ==> (#[trigger] blocks@[k]).0@ == minutes_to_time_spec(
                split_spec(task_start, task_end, unplugged@)[k].0 as int,
            ) && blocks@[k].1@ == minutes_to_time_spec(
                split_spec(task_start, task_end, unplugged@)[k].1 as int,
            ),
{
    let pairs = split_minutes(task_start, task_end, unplugged);
    let mut blocks: Vec<(String, String)> = Vec::new();
    let mut k: usize = 0;
    while k < pairs.len()
        invariant
            k <= pairs.len(),
            blocks@.len() == k,
            forall|j: int|
                0 <= j < k ==> (#[trigger] blocks@[j]).0@ == minutes_to_time_spec(
                    pairs@[j].0 as int,
                ) && blocks@[j].1@ == minutes_to_time_spec(pairs@[j].1 as int),
        decreases pairs.len() - k,
    {
        blocks.push((minutes_to_time(pairs[k].0), minutes_to_time(pairs[k].1)));
        k = k + 1;
    }
    blocks
}

/// Where a task of `duration` minutes starts after a look at the first
/// `n` blocks of the day, and whether the look has ended: the task starts
/// at `from` unless a block stands in the way, and moves behind each
/// block before which it does not fit.
pub open spec fn free_start_prefix(from: i64, duration: i64, existing: Seq<(i64, i64)>, n: int)
    -> (i64, bool)
    decreases n,
{
    if n <= 0 || n > existing.len() {
        (from, false)
    } else {
        let (current, found) = free_start_prefix(from, duration, existing, n - 1);
        if found {
            (current, true)
        } else if current + duration <= existing[n - 1].0 {
            (current, true)
        } else {
            (existing[n - 1].1, false)
        }
    }
}

/// The first start at which a task of `duration` minutes fits before a
/// block of the day, going through the blocks in order from `from`; the
/// end of the last block when it fits before none.
pub open spec fn free_start(from: i64, duration: i64, existing: Seq<(i64, i64)>) -> i64 {
    free_start_prefix(from, duration, existing, existing.len() as int).0
}

/// Finds the first free start for a task of `duration` minutes.
pub fn find_free_start(from: i64, duration: i64, existing: &Vec<(i64, i64)>) -> (start: i64)
    ensures
        start == free_start(from, duration, existing@),
{
    let mut current: i64 = from;
    let mut found = false;
    let mut n: usize = 0;
    while n < existing.len()
        invariant
            n <= existing.len(),
            (current, found) == free_start_prefix(from, duration, existing@, n as int),
        decreases existing.len() - n,
    {
        if !found {
            if (current as i128) + (duration as i128) <= (existing[n].0 as i128) {
                found = true;
            } else {
                current = existing[n].1;
            }
        }
        n = n + 1;
    }
    current
}

/// The first minute of the planning day: the start of core time, or
/// midnight.
pub open spec fn plan_day_start(core_start: Option<i64>) -> i64 {
    match core_start {
        Some(m) => m,
        None => 0,
    }
}

/// The first minute after the planning day: the end of core time, or the
/// next midnight.
pub open spec fn plan_day_end(core_end: Option<i64>) -> i64 {
    match core_end {
        Some(m) => m,
        None => 1440,
    }
}

/// The blocks of a task planned into one day: the task starts at the
/// first free start of the day and is split around the unplugged windows.
/// An invalid-input error when the task would end after the planning day,
/// an internal error when its end cannot be represented.
pub open spec fn plan_spec(
    input: TaskInput,
    core_start: Option<i64>,
    core_end: Option<i64>,
    existing: Seq<(i64, i64)>,
    unplugged: Seq<(i64, i64)>,
) -> Result<Seq<(i64, i64)>, ErrorKind> {
    let start = free_start(plan_day_start(core_start), input.duration_minutes, existing);
    let end = start + input.duration_minutes;
    if end > plan_day_end(core_end) {
        Err(ErrorKind::InvalidInput)
    } else if end < i64::MIN {
        Err(ErrorKind::Internal)
    } else {
        Ok(split_spec(start, end as i64, unplugged))
    }
}

/// Plans a task into one day, as `plan_spec` says. The existing blocks
/// and the unplugged windows are given by their starts and ends in
/// minutes since midnight.
pub fn plan_task_blocks(
    input: &TaskInput,
    core_start: Option<i64>,
    core_end: Option<i64>,
    existing: &Vec<(i64, i64)>,
    unplugged: &Vec<(i64, i64)>,
) -> (r: Result<Vec<(i64, i64)>, AppError>)
    ensures
        match plan_spec(*input, core_start, core_end, existing@, unplugged@) {
            Ok(blocks) => r matches Ok(v) && v@ == blocks,
            Err(k) => r matches Err(e) && e.spec_kind() == k,
        },
        r matches Err(e) ==> (e.spec_kind() == ErrorKind::InvalidInput ==> e.spec_detail()
            == "No available time slot within core hours"@),
{
    let day_start: i64 = match core_start {
        Some(m) => m,
        None => 0,
    };
    let day_end: i64 = match core_end {
        Some(m) => m,
        None => 1440,
    };
    let start = find_free_start(day_start, input.duration_minutes, existing);
    let end: i128 = (start as i128) + (input.duration_minutes as i128);
    if end > (day_end as i128) {
        Err(invalid_input("No available time slot within core hours"))
    } else if end < -9_223_372_036_854_775_808 {
        Err(internal("the end of the task cannot be represented"))
    } else {
        Ok(split_minutes(start, end as i64, unplugged))
    }
}

} // verus!
