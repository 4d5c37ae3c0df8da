use will_done::clock::format_timestamp;
use will_done::clock::now_instant;
use will_done::clock::parse_timestamp;
use will_done::error::AppError;
use will_done::inbox::delete_task;
use will_done::inbox::move_all_to_timeline;
use will_done::inbox::move_all_to_timeline_at;
use will_done::inbox::move_to_inbox;
use will_done::inbox::move_to_timeline;
use will_done::inbox::move_to_timeline_at;
use will_done::models::AddTaskInput;
use will_done::models::BlockStatus;
use will_done::models::Task;
use will_done::models::TimeBlock;
use will_done::models::UnpluggedTime;
use will_done::placer::place_intervals;
use will_done::repository::Repository;
use will_done::scheduler::add_task;
use will_done::scheduler::add_task_at;
use will_done::scheduler::schedule_task_blocks;
use will_done::shifter::shift_future_blocks;
use will_done::views::check_active_block_exists;
use will_done::views::get_inbox;
use will_done::views::get_timeline;

fn at(clock: &str) -> i64 {
    parse_timestamp(&format!("2026-03-01T{}:00", clock)).unwrap()
}

fn clock(t: i64) -> String {
    let text = format_timestamp(t).unwrap();
    assert!(text.starts_with("2026-03-01T") || text.starts_with("2026-03-02T"));
    assert!(text.ends_with(":00"));
    if text.starts_with("2026-03-02T") {
        format!("+{}", &text[11..16])
    } else {
        text[11..16].to_string()
    }
}

fn task(id: i64, title: &str, estimated_minutes: i64) -> Task {
    Task { id, workspace_id: 1, title: title.to_string(), planning_memo: None, estimated_minutes }
}

fn block(id: i64, task_id: i64, title: &str, start: &str, end: &str, status: BlockStatus) -> TimeBlock {
    TimeBlock {
        id,
        task_id: Some(task_id),
        workspace_id: 1,
        title: title.to_string(),
        start_time: at(start),
        end_time: at(end),
        status,
        review_memo: None,
        is_urgent: false,
    }
}

fn window(id: i64, start: i64, end: i64) -> UnpluggedTime {
    UnpluggedTime { id, workspace_id: 1, label: "Lunch".to_string(), start_time: start, end_time: end }
}

fn repo_with(tasks: Vec<Task>, blocks: Vec<TimeBlock>, windows: Vec<UnpluggedTime>) -> Repository {
    let mut repo = Repository::new();
    repo.next_task_id = tasks.iter().map(|t| t.id + 1).max().unwrap_or(1);
    repo.next_block_id = blocks.iter().map(|b| b.id + 1).max().unwrap_or(1);
    repo.next_unplugged_id = windows.iter().map(|w| w.id + 1).max().unwrap_or(1);
    repo.tasks = tasks;
    repo.time_blocks = blocks;
    repo.unplugged_times = windows;
    assert!(repo.is_wf());
    repo
}

fn request(title: &str, hours: i32, minutes: i32, urgent: bool) -> AddTaskInput {
    AddTaskInput {
        workspace_id: 1,
        title: title.to_string(),
        hours,
        minutes,
        planning_memo: None,
        is_urgent: urgent,
        is_inbox: Some(false),
    }
}

fn stored(repo: &Repository) -> Vec<(i64, Option<i64>, String, String, BlockStatus)> {
    repo.time_blocks
        .iter()
        .map(|b| (b.id, b.task_id, clock(b.start_time), clock(b.end_time), b.status))
        .collect()
}

fn row(id: i64, task_id: i64, start: &str, end: &str, status: BlockStatus) -> (i64, Option<i64>, String, String, BlockStatus) {
    (id, Some(task_id), start.to_string(), end.to_string(), status)
}

fn day_of_march_first() -> i64 {
    at("00:00") / 1440
}

fn preempted() -> Repository {
    let mut repo = repo_with(
        vec![task(10, "T1", 0), task(11, "T3", 0)],
        vec![
            block(1, 10, "T1", "18:00", "18:30", BlockStatus::Now),
            block(2, 11, "T3", "18:30", "19:00", BlockStatus::Will),
        ],
        vec![],
    );
    add_task_at(&mut repo, request("T2 (Urgent)", 0, 20, true), at("18:10")).unwrap();
    assert!(repo.is_wf());
    repo
}

#[test]
fn test_urgent_task_time_shift() {
    let repo = preempted();
    let blocks = get_timeline(&repo, 1, day_of_march_first()).unwrap();

    assert_eq!(blocks.len(), 4);

    // Block A
    assert_eq!(blocks[0].title, "T1");
    assert_eq!(blocks[0].status.as_text(), "PENDING");
    assert_eq!(format_timestamp(blocks[0].start_time).unwrap(), "2026-03-01T18:00:00");
    assert_eq!(format_timestamp(blocks[0].end_time).unwrap(), "2026-03-01T18:10:00");

    // Block B (Urgent)
    assert_eq!(blocks[1].title, "T2 (Urgent)");
    assert_eq!(format_timestamp(blocks[1].start_time).unwrap(), "2026-03-01T18:10:00");
    assert_eq!(format_timestamp(blocks[1].end_time).unwrap(), "2026-03-01T18:30:00");

    // Block C (T1 Resume)
    assert_eq!(blocks[2].title, "T1");
    assert_eq!(format_timestamp(blocks[2].start_time).unwrap(), "2026-03-01T18:30:00");
    assert_eq!(format_timestamp(blocks[2].end_time).unwrap(), "2026-03-01T18:50:00");

    // Block T3 (Shifted)
    assert_eq!(blocks[3].title, "T3");
    assert_eq!(format_timestamp(blocks[3].start_time).unwrap(), "2026-03-01T18:50:00");
    assert_eq!(format_timestamp(blocks[3].end_time).unwrap(), "2026-03-01T19:20:00");
}

#[test]
fn the_preempted_block_is_cut_at_now_and_frozen() {
    let repo = preempted();
    assert_eq!(stored(&repo)[0], row(1, 10, "18:00", "18:10", BlockStatus::Pending));
}

#[test]
fn the_urgent_block_starts_at_now_as_a_new_task() {
    let repo = preempted();
    assert_eq!(stored(&repo)[2], row(3, 12, "18:10", "18:30", BlockStatus::Will));
    assert_eq!(repo.tasks.len(), 3);
    assert_eq!(repo.tasks[2].id, 12);
    assert_eq!(repo.tasks[2].title, "T2 (Urgent)");
    assert_eq!(repo.tasks[2].estimated_minutes, 20);
    assert!(repo.time_blocks[2].is_urgent);
    assert_eq!(repo.time_blocks[2].title, "T2 (Urgent)");
}

#[test]
fn the_rest_of_the_preempted_block_resumes_after_the_urgent_one() {
    let repo = preempted();
    assert_eq!(stored(&repo)[3], row(4, 10, "18:30", "18:50", BlockStatus::Will));
    assert_eq!(repo.time_blocks[3].title, "T1");
    assert!(!repo.time_blocks[3].is_urgent);
}

#[test]
fn the_successor_is_shifted_by_the_urgent_duration() {
    let repo = preempted();
    assert_eq!(stored(&repo)[1], row(2, 11, "18:50", "19:20", BlockStatus::Will));
    assert_eq!(repo.next_block_id, 5);
    assert_eq!(repo.next_task_id, 13);
}

#[test]
fn the_minutes_of_a_preempted_task_are_conserved() {
    let repo = preempted();
    let minutes: i64 = repo
        .time_blocks
        .iter()
        .filter(|b| b.task_id == Some(10))
        .map(|b| b.end_time - b.start_time)
        .sum();
    assert_eq!(minutes, 30);
}

#[test]
fn preemption_at_the_planned_end_resumes_nothing() {
    let mut repo = repo_with(
        vec![task(10, "T1", 0)],
        vec![block(1, 10, "T1", "18:00", "18:30", BlockStatus::Now)],
        vec![],
    );
    add_task_at(&mut repo, request("Urgent", 0, 20, true), at("18:30")).unwrap();
    assert_eq!(
        stored(&repo),
        vec![
            row(1, 10, "18:00", "18:30", BlockStatus::Pending),
            row(2, 11, "18:50", "19:10", BlockStatus::Will),
        ]
    );
}

#[test]
fn an_urgent_task_without_an_active_block_is_placed_then_shifted_with_the_rest() {
    let mut repo = repo_with(
        vec![task(10, "T1", 0)],
        vec![
            block(1, 10, "T1", "17:00", "18:00", BlockStatus::Done),
            block(2, 10, "T1", "18:30", "19:00", BlockStatus::Will),
        ],
        vec![],
    );
    add_task_at(&mut repo, request("Urgent", 0, 20, true), at("18:10")).unwrap();
    assert_eq!(
        stored(&repo),
        vec![
            row(1, 10, "17:00", "18:00", BlockStatus::Done),
            row(2, 10, "18:50", "19:20", BlockStatus::Will),
            row(3, 11, "18:30", "18:50", BlockStatus::Will),
        ]
    );
}

#[test]
fn an_urgent_task_split_by_a_window_resumes_the_cut_block_after_its_last_part() {
    let mut repo = repo_with(
        vec![task(10, "T1", 0)],
        vec![block(1, 10, "T1", "11:00", "12:00", BlockStatus::Now)],
        vec![window(1, 11 * 60 + 40, 11 * 60 + 50)],
    );
    add_task_at(&mut repo, request("Urgent", 0, 20, true), at("11:30")).unwrap();
    assert_eq!(
        stored(&repo),
        vec![
            row(1, 10, "11:00", "11:30", BlockStatus::Pending),
            row(2, 11, "11:30", "11:40", BlockStatus::Will),
            row(3, 11, "11:50", "12:00", BlockStatus::Will),
            row(4, 10, "12:00", "12:30", BlockStatus::Will),
        ]
    );
}

#[test]
fn placement_goes_around_an_unplugged_window() {
    let mut repo = repo_with(vec![], vec![], vec![window(1, 720, 780)]);
    add_task_at(&mut repo, request("Report", 1, 0, false), at("11:30")).unwrap();
    assert_eq!(
        stored(&repo),
        vec![
            row(1, 1, "11:30", "12:00", BlockStatus::Will),
            row(2, 1, "13:00", "13:30", BlockStatus::Will),
        ]
    );
    assert_eq!(repo.tasks.len(), 1);
    assert_eq!(repo.tasks[0].estimated_minutes, 60);
    assert!(get_inbox(&repo, 1).is_empty());
}

#[test]
fn a_task_that_would_cross_midnight_stays_in_the_inbox() {
    let mut repo = repo_with(vec![], vec![], vec![]);
    add_task_at(&mut repo, request("Late", 1, 0, false), at("23:40")).unwrap();
    assert!(repo.time_blocks.is_empty());
    assert_eq!(repo.tasks.len(), 1);
    let inbox = get_inbox(&repo, 1);
    assert_eq!(inbox.len(), 1);
    assert_eq!(inbox[0].title, "Late");
    assert_eq!(inbox[0].estimated_minutes, 60);

    add_task_at(&mut repo, request("Fits", 0, 19, false), at("23:40")).unwrap();
    assert_eq!(stored(&repo), vec![row(1, 2, "23:40", "23:59", BlockStatus::Will)]);
    add_task_at(&mut repo, request("Urgent late", 0, 20, true), at("23:40")).unwrap();
    assert_eq!(repo.time_blocks.len(), 1);
    assert_eq!(repo.tasks.len(), 3);
}

#[test]
fn a_task_for_the_inbox_gets_no_block() {
    let mut repo = repo_with(vec![], vec![], vec![]);
    let mut input = request("Later", 2, 15, true);
    input.is_inbox = Some(true);
    input.planning_memo = Some("think".to_string());
    add_task_at(&mut repo, input, at("09:00")).unwrap();
    assert!(repo.time_blocks.is_empty());
    assert_eq!(repo.tasks[0].estimated_minutes, 135);
    assert_eq!(repo.tasks[0].planning_memo.as_deref(), Some("think"));
    let mut input = request("Now", 0, 15, false);
    input.is_inbox = None;
    add_task_at(&mut repo, input, at("09:00")).unwrap();
    assert_eq!(stored(&repo), vec![row(1, 2, "09:00", "09:15", BlockStatus::Will)]);
}

#[test]
fn a_task_that_is_not_urgent_starts_at_the_latest_end() {
    let mut repo = repo_with(
        vec![task(1, "A", 0)],
        vec![
            block(1, 1, "A", "09:00", "10:00", BlockStatus::Done),
            block(2, 1, "A", "14:00", "15:00", BlockStatus::Will),
        ],
        vec![],
    );
    add_task_at(&mut repo, request("B", 0, 30, false), at("12:00")).unwrap();
    assert_eq!(stored(&repo)[2], row(3, 2, "15:00", "15:30", BlockStatus::Will));
    add_task_at(&mut repo, request("C", 0, 30, false), at("16:00")).unwrap();
    assert_eq!(stored(&repo)[3], row(4, 3, "16:00", "16:30", BlockStatus::Will));
    let mut other = request("Elsewhere", 0, 30, false);
    other.workspace_id = 2;
    add_task_at(&mut repo, other, at("12:00")).unwrap();
    assert_eq!(stored(&repo)[4], row(5, 4, "12:00", "12:30", BlockStatus::Will));
    assert_eq!(repo.time_blocks[4].workspace_id, 2);
}

#[test]
fn adding_a_task_outside_the_calendar_changes_nothing() {
    let mut repo = repo_with(vec![], vec![], vec![]);
    match add_task_at(&mut repo, request("A", 0, 30, false), 5) {
        Err(AppError::InvalidInput(_)) => {},
        other => panic!("{:?}", other),
    }
    assert!(repo.tasks.is_empty());
    repo.next_task_id = i64::MAX;
    match add_task_at(&mut repo, request("A", 0, 30, false), at("09:00")) {
        Err(AppError::Internal(_)) => {},
        other => panic!("{:?}", other),
    }
    repo.next_task_id = 1;
    repo.next_block_id = i64::MAX;
    match add_task_at(&mut repo, request("A", 0, 30, false), at("09:00")) {
        Err(AppError::Internal(_)) => {},
        other => panic!("{:?}", other),
    }
    assert!(repo.tasks.is_empty());
    assert!(repo.time_blocks.is_empty());
    let mut repo = repo_with(
        vec![task(1, "A", 0)],
        vec![block(1, 1, "A", "09:00", "10:00", BlockStatus::Will)],
        vec![],
    );
    repo.time_blocks[0].start_time = 5_258_966_399 - 30;
    repo.time_blocks[0].end_time = 5_258_966_399;
    assert!(repo.is_wf());
    match add_task_at(&mut repo, request("U", 0, 10, true), 5_258_966_399 - 100) {
        Err(AppError::InvalidInput(_)) => {},
        other => panic!("{:?}", other),
    }
    assert_eq!(repo.tasks.len(), 1);
    assert_eq!(repo.time_blocks.len(), 1);
    assert_eq!(repo.time_blocks[0].end_time, 5_258_966_399);
}

#[test]
fn adding_a_task_by_the_clock_stores_it() {
    let mut repo = repo_with(vec![], vec![], vec![]);
    let mut input = request("Clocked", 0, 5, false);
    input.is_inbox = Some(true);
    add_task(&mut repo, input).unwrap();
    assert_eq!(repo.tasks.len(), 1);
    assert_eq!(repo.tasks[0].title, "Clocked");
    assert!(repo.is_wf());
}

#[test]
fn the_placer_fills_free_time_whatever_the_order_of_the_windows() {
    let windows = vec![window(1, 14 * 60, 15 * 60), window(2, 12 * 60, 13 * 60)];
    let stretches = place_intervals(&windows, 1, at("11:00"), 240).unwrap();
    assert_eq!(
        stretches,
        vec![(at("11:00"), at("12:00")), (at("13:00"), at("14:00")), (at("15:00"), at("17:00"))]
    );
    let total: i64 = stretches.iter().map(|s| s.1 - s.0).sum();
    assert_eq!(total, 240);
}

#[test]
fn the_placer_leaves_a_window_that_contains_the_start() {
    let windows = vec![window(1, 12 * 60, 13 * 60)];
    assert_eq!(
        place_intervals(&windows, 1, at("12:30"), 60).unwrap(),
        vec![(at("13:00"), at("14:00"))]
    );
    assert_eq!(
        place_intervals(&windows, 1, at("12:00"), 1).unwrap(),
        vec![(at("13:00"), at("13:01"))]
    );
    assert_eq!(
        place_intervals(&windows, 1, at("13:00"), 60).unwrap(),
        vec![(at("13:00"), at("14:00"))]
    );
    assert_eq!(
        place_intervals(&windows, 1, at("11:00"), 60).unwrap(),
        vec![(at("11:00"), at("12:00"))]
    );
    assert_eq!(
        place_intervals(&windows, 1, at("11:00"), 61).unwrap(),
        vec![(at("11:00"), at("12:00")), (at("13:00"), at("13:01"))]
    );
    let overlapping =
        vec![window(1, 12 * 60, 13 * 60), window(2, 12 * 60 + 30, 14 * 60), window(3, 14 * 60, 15 * 60)];
    assert_eq!(
        place_intervals(&overlapping, 1, at("12:10"), 30).unwrap(),
        vec![(at("15:00"), at("15:30"))]
    );
}

#[test]
fn the_placer_ignores_other_workspaces_and_the_day_boundary() {
    let mut elsewhere = window(1, 12 * 60, 13 * 60);
    elsewhere.workspace_id = 2;
    assert_eq!(
        place_intervals(&vec![elsewhere], 1, at("11:30"), 60).unwrap(),
        vec![(at("11:30"), at("12:30"))]
    );
    let late = vec![window(1, 23 * 60 + 10, 23 * 60 + 30)];
    assert_eq!(
        place_intervals(&late, 1, at("23:00"), 50).unwrap(),
        vec![(at("23:00"), at("23:10")), (at("23:30"), at("23:59") + 11)]
    );
    assert_eq!(place_intervals(&late, 1, at("23:00"), 0).unwrap(), vec![]);
    assert_eq!(place_intervals(&late, 1, at("23:00"), -5).unwrap(), vec![]);
    assert_eq!(place_intervals(&late, 1, at("23:00"), i64::MAX), None);
    assert_eq!(place_intervals(&vec![], 1, 5_258_966_399 - 10, 11), None);
    assert_eq!(
        place_intervals(&vec![], 1, 5_258_966_399 - 10, 10).unwrap(),
        vec![(5_258_966_399 - 10, 5_258_966_399)]
    );
}

#[test]
fn scheduling_a_task_appends_planned_blocks() {
    let mut repo = repo_with(vec![task(7, "A", 0)], vec![], vec![window(1, 720, 780)]);
    schedule_task_blocks(&mut repo, 1, 7, &"A".to_string(), at("11:50"), 20, true).unwrap();
    assert_eq!(
        stored(&repo),
        vec![
            row(1, 7, "11:50", "12:00", BlockStatus::Will),
            row(2, 7, "13:00", "13:10", BlockStatus::Will),
        ]
    );
    assert!(repo.time_blocks.iter().all(|b| b.is_urgent && b.title == "A" && b.review_memo.is_none()));
    assert_eq!(repo.next_block_id, 3);
}

#[test]
fn the_shifter_moves_planned_blocks_from_the_pivot_on() {
    let mut repo = repo_with(
        vec![task(1, "A", 0)],
        vec![
            block(1, 1, "A", "09:00", "10:00", BlockStatus::Will),
            block(2, 1, "A", "10:00", "11:00", BlockStatus::Will),
            block(3, 1, "A", "11:00", "12:00", BlockStatus::Now),
            block(4, 1, "A", "12:00", "13:00", BlockStatus::Will),
            block(5, 1, "A", "13:00", "14:00", BlockStatus::Pending),
            block(6, 1, "A", "14:00", "15:00", BlockStatus::Done),
        ],
        vec![],
    );
    repo.time_blocks[3].workspace_id = 2;
    shift_future_blocks(&mut repo, 1, at("10:00"), 15).unwrap();
    assert_eq!(
        stored(&repo),
        vec![
            row(1, 1, "09:00", "10:00", BlockStatus::Will),
            row(2, 1, "10:15", "11:15", BlockStatus::Will),
            row(3, 1, "11:00", "12:00", BlockStatus::Now),
            row(4, 1, "12:00", "13:00", BlockStatus::Will),
            row(5, 1, "13:00", "14:00", BlockStatus::Pending),
            row(6, 1, "14:00", "15:00", BlockStatus::Done),
        ]
    );
    shift_future_blocks(&mut repo, 1, at("00:00"), -30).unwrap();
    assert_eq!(stored(&repo)[0], row(1, 1, "08:30", "09:30", BlockStatus::Will));
    assert_eq!(stored(&repo)[1], row(2, 1, "09:45", "10:45", BlockStatus::Will));
    match shift_future_blocks(&mut repo, 1, at("00:00"), i64::MAX) {
        Err(AppError::InvalidInput(_)) => {},
        other => panic!("{:?}", other),
    }
    match shift_future_blocks(&mut repo, 1, at("09:00"), i64::MIN) {
        Err(AppError::InvalidInput(_)) => {},
        other => panic!("{:?}", other),
    }
    assert_eq!(stored(&repo)[0], row(1, 1, "08:30", "09:30", BlockStatus::Will));
    assert_eq!(stored(&repo)[1], row(2, 1, "09:45", "10:45", BlockStatus::Will));
    shift_future_blocks(&mut repo, 1, at("23:00"), i64::MAX).unwrap();
}

#[test]
fn moving_a_task_to_the_timeline_places_it_without_shifting() {
    let mut repo = repo_with(
        vec![task(1, "A", 0), task(2, "Short", 10), task(3, "Long", 90)],
        vec![block(1, 1, "A", "09:00", "10:00", BlockStatus::Will)],
        vec![],
    );
    move_to_timeline_at(&mut repo, 2, 1, at("08:00")).unwrap();
    assert_eq!(stored(&repo)[1], row(2, 2, "10:00", "10:10", BlockStatus::Will));
    move_to_timeline_at(&mut repo, 3, 1, at("11:00")).unwrap();
    assert_eq!(stored(&repo)[2], row(3, 3, "11:00", "12:30", BlockStatus::Will));
    assert_eq!(stored(&repo)[0], row(1, 1, "09:00", "10:00", BlockStatus::Will));
    assert_eq!(repo.time_blocks[2].title, "Long");
    assert!(!repo.time_blocks[2].is_urgent);
    match move_to_timeline_at(&mut repo, 9, 1, at("11:00")) {
        Err(AppError::NotFound(_)) => {},
        other => panic!("{:?}", other),
    }
    match move_to_timeline_at(&mut repo, 2, 1, 0) {
        Err(AppError::InvalidInput(_)) => {},
        other => panic!("{:?}", other),
    }
    assert_eq!(repo.time_blocks.len(), 3);
}

#[test]
fn a_task_without_an_estimate_takes_thirty_minutes() {
    let mut repo = repo_with(vec![task(1, "A", 0), task(2, "B", -5)], vec![], vec![]);
    move_to_timeline_at(&mut repo, 1, 1, at("08:00")).unwrap();
    move_to_timeline_at(&mut repo, 2, 1, at("08:00")).unwrap();
    assert_eq!(
        stored(&repo),
        vec![
            row(1, 1, "08:00", "08:30", BlockStatus::Will),
            row(2, 2, "08:30", "09:00", BlockStatus::Will),
        ]
    );
}

#[test]
fn moving_a_task_that_would_cross_midnight_places_nothing() {
    let mut repo = repo_with(vec![task(1, "A", 30)], vec![], vec![]);
    move_to_timeline_at(&mut repo, 1, 1, at("23:31")).unwrap();
    assert!(repo.time_blocks.is_empty());
    move_to_timeline_at(&mut repo, 1, 1, at("23:29")).unwrap();
    assert_eq!(stored(&repo), vec![row(1, 1, "23:29", "23:59", BlockStatus::Will)]);
}

#[test]
fn moving_all_stops_at_the_first_task_that_would_cross_midnight() {
    let mut repo = repo_with(
        vec![
            task(1, "Placed before", 60),
            task(2, "A", 60),
            task(3, "Too long", 120),
            task(4, "Would fit", 10),
            task(5, "Elsewhere", 10),
        ],
        vec![block(1, 1, "Placed before", "20:00", "21:00", BlockStatus::Done)],
        vec![],
    );
    repo.tasks[4].workspace_id = 2;
    move_all_to_timeline_at(&mut repo, 1, at("21:30")).unwrap();
    assert_eq!(
        stored(&repo),
        vec![
            row(1, 1, "20:00", "21:00", BlockStatus::Done),
            row(2, 2, "21:30", "22:30", BlockStatus::Will),
        ]
    );
    let inbox: Vec<i64> = get_inbox(&repo, 1).iter().map(|t| t.id).collect();
    assert_eq!(inbox, vec![3, 4]);
    let inbox: Vec<i64> = get_inbox(&repo, 2).iter().map(|t| t.id).collect();
    assert_eq!(inbox, vec![5]);
}

#[test]
fn moving_all_places_each_task_behind_the_one_before() {
    let mut repo = repo_with(
        vec![task(1, "A", 20), task(2, "B", 0), task(3, "C", 45)],
        vec![],
        vec![window(1, 9 * 60 + 30, 10 * 60)],
    );
    move_all_to_timeline_at(&mut repo, 1, at("09:00")).unwrap();
    assert_eq!(
        stored(&repo),
        vec![
            row(1, 1, "09:00", "09:20", BlockStatus::Will),
            row(2, 2, "09:20", "09:30", BlockStatus::Will),
            row(3, 2, "10:00", "10:20", BlockStatus::Will),
            row(4, 3, "10:20", "11:05", BlockStatus::Will),
        ]
    );
    assert!(get_inbox(&repo, 1).is_empty());
    match move_all_to_timeline_at(&mut repo, 1, -1) {
        Err(AppError::InvalidInput(_)) => {},
        other => panic!("{:?}", other),
    }
}

#[test]
fn moving_a_block_to_the_inbox_removes_all_blocks_of_its_task() {
    let mut repo = repo_with(
        vec![task(1, "A", 0), task(2, "B", 0)],
        vec![
            block(1, 1, "A", "09:00", "10:00", BlockStatus::Pending),
            block(2, 2, "B", "10:00", "11:00", BlockStatus::Will),
            block(3, 1, "A", "11:00", "12:00", BlockStatus::Will),
        ],
        vec![],
    );
    move_to_inbox(&mut repo, 3).unwrap();
    assert_eq!(stored(&repo), vec![row(2, 2, "10:00", "11:00", BlockStatus::Will)]);
    assert_eq!(repo.tasks.len(), 2);
    let inbox: Vec<i64> = get_inbox(&repo, 1).iter().map(|t| t.id).collect();
    assert_eq!(inbox, vec![1]);
    match move_to_inbox(&mut repo, 3) {
        Err(AppError::NotFound(_)) => {},
        other => panic!("{:?}", other),
    }
    assert!(repo.is_wf());
}

#[test]
fn deleting_a_task_removes_its_blocks() {
    let mut repo = repo_with(
        vec![task(1, "A", 0), task(2, "B", 0)],
        vec![
            block(1, 1, "A", "09:00", "10:00", BlockStatus::Pending),
            block(2, 2, "B", "10:00", "11:00", BlockStatus::Will),
            block(3, 1, "A", "11:00", "12:00", BlockStatus::Now),
        ],
        vec![],
    );
    assert!(check_active_block_exists(&repo, 1));
    assert!(!check_active_block_exists(&repo, 2));
    delete_task(&mut repo, 1).unwrap();
    assert_eq!(stored(&repo), vec![row(2, 2, "10:00", "11:00", BlockStatus::Will)]);
    assert_eq!(repo.tasks.len(), 1);
    assert_eq!(repo.tasks[0].id, 2);
    assert!(!check_active_block_exists(&repo, 1));
    delete_task(&mut repo, 1).unwrap();
    assert_eq!(repo.tasks.len(), 1);
    assert!(repo.is_wf());
}

#[test]
fn moving_a_missing_task_by_the_clock_is_not_found() {
    let mut repo = repo_with(
        vec![task(1, "A", 60)],
        vec![block(1, 1, "A", "09:00", "10:00", BlockStatus::Will)],
        vec![],
    );
    match move_to_timeline(&mut repo, 7, 1) {
        Err(AppError::NotFound(_)) => {},
        other => panic!("{:?}", other),
    }
    assert_eq!(stored(&repo), vec![row(1, 1, "09:00", "10:00", BlockStatus::Will)]);
    assert_eq!(repo.tasks.len(), 1);
}

#[test]
fn moving_a_task_by_the_clock_places_it_at_the_reading() {
    let mut repo = repo_with(vec![task(1, "A", 45)], vec![], vec![]);
    let before = now_instant().expect("the clock is within the calendar");
    move_to_timeline(&mut repo, 1, 1).unwrap();
    let after = now_instant().expect("the clock is within the calendar");
    assert_eq!(repo.tasks.len(), 1);
    assert!(repo.is_wf());
    if let Some(placed) = repo.time_blocks.first() {
        assert_eq!(repo.time_blocks.len(), 1);
        assert_eq!(placed.task_id, Some(1));
        assert!(before <= placed.start_time && placed.start_time <= after);
        assert_eq!(placed.end_time, placed.start_time + 45);
        assert_eq!(placed.status, BlockStatus::Will);
    } else {
        assert!(after % 1440 + 45 >= 1440 || after / 1440 > before / 1440);
    }
}

#[test]
fn offering_an_empty_inbox_by_the_clock_changes_nothing() {
    let mut other = task(2, "Elsewhere", 30);
    other.workspace_id = 2;
    let mut repo = repo_with(
        vec![task(1, "A", 60), other],
        vec![block(1, 1, "A", "09:00", "10:00", BlockStatus::Will)],
        vec![],
    );
    move_all_to_timeline(&mut repo, 1).unwrap();
    assert_eq!(stored(&repo), vec![row(1, 1, "09:00", "10:00", BlockStatus::Will)]);
    assert_eq!(repo.tasks.len(), 2);
    assert_eq!(repo.next_block_id, 2);
}

#[test]
fn offering_the_inbox_by_the_clock_places_its_tasks_in_turn() {
    let mut repo = repo_with(vec![task(1, "A", 30), task(2, "B", 30)], vec![], vec![]);
    let before = now_instant().expect("the clock is within the calendar");
    move_all_to_timeline(&mut repo, 1).unwrap();
    assert!(repo.is_wf());
    assert_eq!(repo.tasks.len(), 2);
    assert!(repo.time_blocks.len() <= 2);
    let mut from = before;
    for (i, placed) in repo.time_blocks.iter().enumerate() {
        assert_eq!(placed.task_id, Some(i as i64 + 1));
        assert!(from <= placed.start_time);
        assert_eq!(placed.end_time, placed.start_time + 30);
        from = placed.end_time;
    }
}

#[test]
fn adding_a_task_by_the_clock_places_it_at_the_reading() {
    let mut repo = repo_with(vec![], vec![], vec![]);
    let before = now_instant().expect("the clock is within the calendar");
    add_task(&mut repo, request("Clocked", 0, 20, false)).unwrap();
    let after = now_instant().expect("the clock is within the calendar");
    assert_eq!(repo.tasks.len(), 1);
    assert_eq!(repo.tasks[0].estimated_minutes, 20);
    assert!(repo.is_wf());
    if let Some(placed) = repo.time_blocks.first() {
        assert_eq!(repo.time_blocks.len(), 1);
        assert!(before <= placed.start_time && placed.start_time <= after);
        assert_eq!(placed.end_time, placed.start_time + 20);
    } else {
        assert!(after % 1440 + 20 >= 1440 || after / 1440 > before / 1440);
    }
}
