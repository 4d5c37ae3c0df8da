use will_done::error::AppError;
use will_done::models::TaskInput;
use will_done::planner::find_free_start;
use will_done::planner::plan_task_blocks;
use will_done::planner::sorted_by_start;
use will_done::planner::split_around_unplugged;
use will_done::planner::split_minutes;

// Test splitting logic: simulate the algorithm with test inputs
#[test]
fn test_split_around_single_unplugged() {
    // Task: 60 min from 09:00 to 10:00
    // Unplugged: 09:30 to 10:00
    // Expected: one block - 09:00-09:30 (second block would be 10:00-10:00 which is empty)
    let task_start_min = 540; // 09:00
    let task_end_min = 600; // 10:00
    let unplugged_times = vec![(570, 600)]; // 09:30-10:00

    let blocks_to_insert = split_around_unplugged(task_start_min, task_end_min, &unplugged_times);

    // After unplug (10:00) == task_end_min (10:00), so no second block
    assert_eq!(blocks_to_insert.len(), 1);
    assert_eq!(blocks_to_insert[0], ("09:00".to_string(), "09:30".to_string()));
}

#[test]
fn test_split_around_multiple_unplugged() {
    // Task: 120 min from 08:00 to 10:00
    // Unplugged: 08:30-09:00 and 09:30-10:00
    // Expected: two blocks - 08:00-08:30 and 09:00-09:30 (third would be 10:00-10:00 empty)
    let task_start_min = 480; // 08:00
    let task_end_min = 600; // 10:00
    // (510,540) = 08:30-09:00, (570,600) = 09:30-10:00
    let unplugged_times = vec![(570, 600), (510, 540)]; // Out of order

    let blocks_to_insert = split_around_unplugged(task_start_min, task_end_min, &unplugged_times);

    assert_eq!(blocks_to_insert.len(), 2);
    assert_eq!(blocks_to_insert[0], ("08:00".to_string(), "08:30".to_string()));
    assert_eq!(blocks_to_insert[1], ("09:00".to_string(), "09:30".to_string()));
}

#[test]
fn test_no_split_when_no_overlap() {
    // Task: 60 min from 10:00 to 11:00
    // Unplugged: 08:00-09:00 (no overlap)
    // Expected: one block 10:00-11:00
    let task_start_min = 600; // 10:00
    let task_end_min = 660; // 11:00
    let unplugged_times = vec![(480, 540)]; // 08:00-09:00

    let blocks_to_insert = split_around_unplugged(task_start_min, task_end_min, &unplugged_times);

    assert_eq!(blocks_to_insert.len(), 1);
    assert_eq!(blocks_to_insert[0], ("10:00".to_string(), "11:00".to_string()));
}

#[test]
fn test_task_completely_inside_unplugged() {
    // Task: 60 min from 09:00 to 10:00
    // Unplugged: 08:30-10:30 (task completely inside)
    // Expected: zero blocks (task cannot be scheduled - no available time after unplug)
    let task_start_min = 540; // 09:00
    let task_end_min = 600; // 10:00
    let unplugged_times = vec![(510, 630)]; // 08:30-10:30

    let blocks_to_insert = split_around_unplugged(task_start_min, task_end_min, &unplugged_times);

    // No blocks because task_start moved to 630 (after unplug) but task_end is 600
    assert_eq!(blocks_to_insert.len(), 0);
}

#[test]
fn split_minutes_gives_the_stretches_in_minutes() {
    assert_eq!(split_minutes(480, 600, &vec![(570, 600), (510, 540)]), vec![(480, 510), (540, 570)]);
    assert_eq!(split_minutes(480, 600, &vec![]), vec![(480, 600)]);
    assert_eq!(split_minutes(600, 480, &vec![]), vec![]);
    assert_eq!(split_minutes(480, 600, &vec![(500, 510)]), vec![(480, 500), (510, 600)]);
    assert_eq!(split_minutes(505, 600, &vec![(500, 510)]), vec![(510, 600)]);
    assert_eq!(split_minutes(480, 600, &vec![(600, 610)]), vec![(480, 600)]);
    assert_eq!(split_minutes(480, 600, &vec![(470, 480)]), vec![(480, 600)]);
}

#[test]
fn sorting_keeps_the_order_of_equal_starts() {
    assert_eq!(sorted_by_start(&vec![]), vec![]);
    assert_eq!(
        sorted_by_start(&vec![(5, 1), (3, 2), (5, 0), (1, 9), (3, 1)]),
        vec![(1, 9), (3, 2), (3, 1), (5, 1), (5, 0)]
    );
    let mut by_std = vec![(7, 0), (-2, 5), (7, -1), (0, 0), (-2, 4), (i64::MIN, 1), (i64::MAX, 2)];
    let ours = sorted_by_start(&by_std);
    by_std.sort_by_key(|x| x.0);
    assert_eq!(ours, by_std);
}

#[test]
fn the_first_free_start_is_before_the_first_block_that_leaves_room() {
    assert_eq!(find_free_start(540, 30, &vec![]), 540);
    assert_eq!(find_free_start(540, 30, &vec![(570, 600)]), 540);
    assert_eq!(find_free_start(540, 31, &vec![(570, 600)]), 600);
    assert_eq!(find_free_start(540, 30, &vec![(540, 600), (620, 700), (730, 800)]), 700);
    assert_eq!(find_free_start(540, 20, &vec![(540, 600), (620, 700), (730, 800)]), 600);
    assert_eq!(find_free_start(540, 60, &vec![(540, 600), (620, 700), (730, 800)]), 800);
    assert_eq!(find_free_start(0, i64::MAX, &vec![(i64::MAX, 5)]), 0);
    assert_eq!(find_free_start(1, i64::MAX, &vec![(i64::MAX, 5)]), 5);
}

fn request(duration_minutes: i64) -> TaskInput {
    TaskInput {
        title: "Write report".to_string(),
        planning_memo: None,
        duration_minutes,
        is_urgent: false,
    }
}

#[test]
fn a_task_is_planned_into_the_first_gap_and_split() {
    let existing = vec![(540, 600)];
    let unplugged = vec![(720, 780), (630, 640)];
    let blocks =
        plan_task_blocks(&request(150), Some(540), Some(1080), &existing, &unplugged).unwrap();
    assert_eq!(blocks, vec![(600, 630), (640, 720)]);
    let blocks = plan_task_blocks(&request(60), None, None, &vec![], &vec![]).unwrap();
    assert_eq!(blocks, vec![(0, 60)]);
    let blocks = plan_task_blocks(&request(1440), None, None, &vec![], &vec![]).unwrap();
    assert_eq!(blocks, vec![(0, 1440)]);
    let blocks = plan_task_blocks(&request(0), Some(540), None, &vec![], &vec![]).unwrap();
    assert_eq!(blocks, vec![]);
}

#[test]
fn a_task_that_ends_after_the_day_is_not_planned() {
    match plan_task_blocks(&request(1441), None, None, &vec![], &vec![]) {
        Err(AppError::InvalidInput(detail)) => {
            assert_eq!(detail, "No available time slot within core hours")
        },
        other => panic!("{:?}", other),
    }
    let existing = vec![(540, 1000)];
    assert!(matches!(
        plan_task_blocks(&request(90), Some(540), Some(1080), &existing, &vec![]),
        Err(AppError::InvalidInput(_))
    ));
    assert!(plan_task_blocks(&request(80), Some(540), Some(1080), &existing, &vec![]).is_ok());
    assert!(matches!(
        plan_task_blocks(&request(i64::MAX), Some(540), None, &vec![], &vec![]),
        Err(AppError::InvalidInput(_))
    ));
    assert!(matches!(
        plan_task_blocks(&request(i64::MIN), Some(-5), None, &vec![], &vec![]),
        Err(AppError::Internal(_))
    ));
}
