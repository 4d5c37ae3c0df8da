use will_done::clock::parse_timestamp;
use will_done::error::AppError;
use will_done::models::BlockStatus;
use will_done::models::CreateWorkspaceInput;
use will_done::models::Task;
use will_done::models::TimeBlock;
use will_done::models::UnpluggedTime;
use will_done::models::UnpluggedTimeInput;
use will_done::reorderer::reorder_blocks;
use will_done::repository::Repository;
use will_done::views::get_active_dates;
use will_done::views::get_last_block_id;
use will_done::views::get_open_blocks;
use will_done::views::get_task_blocks;
use will_done::views::window_on_day;
use will_done::views::get_active_days;
use will_done::views::get_completed_duration;
use will_done::views::get_timeline;
use will_done::views::get_today_completed_duration;
use will_done::workspace::create_workspace;
use will_done::workspace::get_current_workspace;
use will_done::workspace::get_unplugged_times;
use will_done::workspace::get_workspace;
use will_done::workspace::get_workspaces;
use will_done::workspace::normalize_core_time;
use will_done::workspace::update_workspace;

fn at(clock: &str) -> i64 {
    parse_timestamp(&format!("2026-03-01T{}:00", clock)).unwrap()
}

fn block(id: i64, start: &str, end: &str, status: BlockStatus) -> TimeBlock {
    TimeBlock {
        id,
        task_id: Some(id),
        workspace_id: 1,
        title: format!("Block {}", id),
        start_time: at(start),
        end_time: at(end),
        status,
        review_memo: None,
        is_urgent: false,
    }
}

fn repo_with(blocks: Vec<TimeBlock>, windows: Vec<(i64, i64)>) -> Repository {
    let mut repo = Repository::new();
    repo.next_task_id = 100;
    for id in 1..10 {
        repo.tasks.push(Task {
            id,
            workspace_id: 1,
            title: format!("Task {}", id),
            planning_memo: None,
            estimated_minutes: 0,
        });
    }
    repo.next_block_id = blocks.iter().map(|b| b.id + 1).max().unwrap_or(1);
    repo.time_blocks = blocks;
    for (k, (start, end)) in windows.iter().enumerate() {
        repo.unplugged_times.push(UnpluggedTime {
            id: k as i64 + 1,
            workspace_id: 1,
            label: format!("Window {}", k + 1),
            start_time: *start,
            end_time: *end,
        });
    }
    repo.next_unplugged_id = windows.len() as i64 + 1;
    assert!(repo.is_wf());
    repo
}

fn times(repo: &Repository) -> Vec<(i64, i64, i64)> {
    repo.time_blocks.iter().map(|b| (b.id, b.start_time, b.end_time)).collect()
}

#[test]
fn reordering_lays_blocks_out_in_the_given_order_without_splitting() {
    let mut repo = repo_with(
        vec![
            block(1, "10:00", "11:00", BlockStatus::Will),
            block(2, "11:00", "11:30", BlockStatus::Will),
            block(3, "13:00", "14:00", BlockStatus::Will),
        ],
        vec![(720, 780)],
    );
    reorder_blocks(&mut repo, 1, vec![3, 2, 1]).unwrap();
    assert_eq!(
        times(&repo),
        vec![
            (1, at("11:30"), at("12:30")),
            (2, at("11:00"), at("11:30")),
            (3, at("10:00"), at("11:00")),
        ]
    );
    assert!(repo.is_wf());
}

#[test]
fn reordering_with_the_current_order_of_a_packed_timeline_changes_nothing() {
    let blocks = vec![
        block(1, "10:00", "11:00", BlockStatus::Now),
        block(2, "11:00", "12:00", BlockStatus::Will),
        block(3, "13:00", "14:00", BlockStatus::Will),
        block(4, "14:00", "14:10", BlockStatus::Pending),
    ];
    let mut repo = repo_with(blocks, vec![(720, 780)]);
    let before = times(&repo);
    reorder_blocks(&mut repo, 1, vec![1, 2, 3, 4]).unwrap();
    assert_eq!(times(&repo), before);
}

#[test]
fn reordering_twice_in_the_same_order_is_reordering_once() {
    let blocks = vec![
        block(1, "10:00", "11:00", BlockStatus::Will),
        block(2, "11:30", "12:00", BlockStatus::Will),
        block(3, "15:00", "16:00", BlockStatus::Will),
    ];
    let mut repo = repo_with(blocks, vec![(720, 780)]);
    reorder_blocks(&mut repo, 1, vec![2, 3, 1]).unwrap();
    let once = times(&repo);
    assert_eq!(
        once,
        vec![
            (1, at("11:30"), at("12:30")),
            (2, at("10:00"), at("10:30")),
            (3, at("10:30"), at("11:30")),
        ]
    );
    reorder_blocks(&mut repo, 1, vec![2, 3, 1]).unwrap();
    assert_eq!(times(&repo), once);
}

#[test]
fn reordering_passes_over_finished_and_unknown_blocks() {
    let mut repo = repo_with(
        vec![
            block(1, "08:00", "09:00", BlockStatus::Done),
            block(2, "10:00", "11:00", BlockStatus::Will),
            block(3, "12:30", "13:30", BlockStatus::Will),
            block(4, "14:00", "15:00", BlockStatus::Will),
        ],
        vec![(600, 630)],
    );
    repo.time_blocks[3].workspace_id = 2;
    reorder_blocks(&mut repo, 1, vec![99, 1, 3, 4, 2]).unwrap();
    assert_eq!(
        times(&repo),
        vec![
            (1, at("08:00"), at("09:00")),
            (2, at("11:30"), at("12:30")),
            (3, at("10:30"), at("11:30")),
            (4, at("14:00"), at("15:00")),
        ]
    );
    let mut empty = repo_with(vec![block(1, "08:00", "09:00", BlockStatus::Done)], vec![]);
    reorder_blocks(&mut empty, 1, vec![1]).unwrap();
    assert_eq!(times(&empty), vec![(1, at("08:00"), at("09:00"))]);
    reorder_blocks(&mut empty, 1, vec![]).unwrap();
}

#[test]
fn reordering_fails_when_a_block_would_leave_the_calendar() {
    let mut repo = repo_with(
        vec![
            block(1, "10:00", "11:00", BlockStatus::Done),
            block(2, "11:00", "12:00", BlockStatus::Will),
        ],
        vec![],
    );
    repo.time_blocks[1].start_time = 5_258_966_399 - 90;
    repo.time_blocks[1].end_time = 5_258_966_399 - 30;
    let before = times(&repo);
    match reorder_blocks(&mut repo, 1, vec![2, 2, 1]) {
        Err(AppError::InvalidInput(_)) => {},
        other => panic!("{:?}", other),
    }
    assert_eq!(times(&repo), before);
}

#[test]
fn the_timeline_of_a_day_shows_blocks_and_windows_in_order_of_start() {
    let mut repo = repo_with(
        vec![
            block(1, "13:00", "14:00", BlockStatus::Will),
            block(2, "09:00", "10:00", BlockStatus::Done),
            block(3, "12:00", "12:30", BlockStatus::Now),
            block(4, "09:00", "09:30", BlockStatus::Will),
        ],
        vec![(720, 780), (480, 540)],
    );
    repo.time_blocks[3].workspace_id = 2;
    repo.time_blocks[0].start_time += 1440;
    repo.time_blocks[0].end_time += 1440;
    let day = at("00:00") / 1440;
    let rows = get_timeline(&repo, 1, day).unwrap();
    let shown: Vec<(i64, Option<i64>, i64, i64, BlockStatus, String)> = rows
        .iter()
        .map(|b| (b.id, b.task_id, b.start_time, b.end_time, b.status, b.title.clone()))
        .collect();
    assert_eq!(
        shown,
        vec![
            (-1, None, at("08:00"), at("09:00"), BlockStatus::Unplugged, "Window 2".to_string()),
            (2, Some(2), at("09:00"), at("10:00"), BlockStatus::Done, "Block 2".to_string()),
            (3, Some(3), at("12:00"), at("12:30"), BlockStatus::Now, "Block 3".to_string()),
            (-1, None, at("12:00"), at("13:00"), BlockStatus::Unplugged, "Window 1".to_string()),
        ]
    );
    assert!(rows.iter().all(|b| b.workspace_id == 1 && b.review_memo.is_none()));
    let next = get_timeline(&repo, 1, day + 1).unwrap();
    let ids: Vec<i64> = next.iter().map(|b| b.id).collect();
    assert_eq!(ids, vec![-1, -1, 1]);
    assert_eq!(next[0].start_time, at("08:00") + 1440);
    assert!(matches!(get_timeline(&repo, 1, 0), Err(AppError::InvalidInput(_))));
    assert!(matches!(get_timeline(&repo, 1, 3_652_060), Err(AppError::InvalidInput(_))));
    assert!(get_timeline(&repo, 3, day).unwrap().is_empty());
}

#[test]
fn the_active_days_are_listed_once_and_in_order() {
    let mut repo = repo_with(
        vec![
            block(1, "13:00", "14:00", BlockStatus::Will),
            block(2, "09:00", "10:00", BlockStatus::Done),
            block(3, "12:00", "12:30", BlockStatus::Now),
            block(4, "09:00", "09:30", BlockStatus::Will),
            block(5, "23:59", "23:59", BlockStatus::Will),
        ],
        vec![],
    );
    let day = at("00:00") / 1440;
    repo.time_blocks[0].start_time += 3 * 1440;
    repo.time_blocks[0].end_time += 3 * 1440;
    repo.time_blocks[2].start_time -= 1440;
    repo.time_blocks[3].workspace_id = 2;
    repo.time_blocks[3].start_time += 9 * 1440;
    repo.time_blocks[3].end_time += 9 * 1440;
    assert_eq!(get_active_days(&repo, 1), vec![day - 1, day, day + 3]);
    assert_eq!(get_active_days(&repo, 2), vec![day + 9]);
    assert_eq!(get_active_days(&repo, 3), Vec::<i64>::new());
    assert_eq!(
        get_active_dates(&repo, 1).unwrap(),
        vec!["2026-02-28".to_string(), "2026-03-01".to_string(), "2026-03-04".to_string()]
    );
    assert_eq!(get_active_dates(&repo, 2).unwrap(), vec!["2026-03-10".to_string()]);
}

#[test]
fn the_completed_minutes_of_a_day_count_finished_and_frozen_blocks() {
    let mut repo = repo_with(
        vec![
            block(1, "09:00", "10:00", BlockStatus::Done),
            block(2, "10:00", "10:10", BlockStatus::Pending),
            block(3, "10:10", "11:00", BlockStatus::Now),
            block(4, "11:00", "12:00", BlockStatus::Will),
            block(5, "12:00", "12:45", BlockStatus::Done),
            block(6, "13:00", "13:05", BlockStatus::Done),
        ],
        vec![],
    );
    repo.time_blocks[4].workspace_id = 2;
    repo.time_blocks[5].start_time += 1440;
    repo.time_blocks[5].end_time += 1440;
    let day = at("00:00") / 1440;
    assert_eq!(get_completed_duration(&repo, 1, day).unwrap(), 70);
    assert_eq!(get_completed_duration(&repo, 2, day).unwrap(), 45);
    assert_eq!(get_completed_duration(&repo, 1, day + 1).unwrap(), 5);
    assert_eq!(get_completed_duration(&repo, 1, day + 2).unwrap(), 0);
    assert_eq!(get_today_completed_duration(&repo, 1).unwrap(), 0);
}

fn window_input(label: &str, start: &str, end: &str) -> UnpluggedTimeInput {
    UnpluggedTimeInput {
        label: label.to_string(),
        start_time: start.to_string(),
        end_time: end.to_string(),
    }
}

fn workspace_input(name: &str, windows: Vec<UnpluggedTimeInput>) -> CreateWorkspaceInput {
    CreateWorkspaceInput {
        name: name.to_string(),
        core_time_start: Some("09:00".to_string()),
        core_time_end: Some("18:00".to_string()),
        role_intro: Some("Engineer".to_string()),
        unplugged_times: windows,
    }
}

#[test]
fn test_create_workspace_transaction() {
    let mut repo = Repository::new();
    let input = workspace_input("Test Workspace", vec![]);
    let workspace_id = create_workspace(&mut repo, input).unwrap();
    let ws = get_workspace(&repo, workspace_id).unwrap();
    assert_eq!(ws.name, "Test Workspace");
}

#[test]
fn creating_a_workspace_stores_its_windows_in_minutes() {
    let mut repo = Repository::new();
    let id = create_workspace(
        &mut repo,
        workspace_input("Home", vec![window_input("Lunch", "12:00", "13:00"), window_input("Nap", "7:05", "07:30")]),
    )
    .unwrap();
    assert_eq!(id, 1);
    let second = create_workspace(&mut repo, workspace_input("Office", vec![window_input("Gym", "18:00", "19:30")])).unwrap();
    assert_eq!(second, 2);
    assert!(repo.is_wf());
    let windows: Vec<(i64, i64, String, i64, i64)> = repo
        .unplugged_times
        .iter()
        .map(|w| (w.id, w.workspace_id, w.label.clone(), w.start_time, w.end_time))
        .collect();
    assert_eq!(
        windows,
        vec![
            (1, 1, "Lunch".to_string(), 720, 780),
            (2, 1, "Nap".to_string(), 425, 450),
            (3, 2, "Gym".to_string(), 1080, 1170),
        ]
    );
    assert_eq!(get_workspaces(&repo).len(), 2);
    assert_eq!(get_unplugged_times(&repo, 1).len(), 2);
    assert_eq!(get_unplugged_times(&repo, 2)[0].label, "Gym");
    assert!(get_unplugged_times(&repo, 3).is_empty());
    assert!(get_workspace(&repo, 3).is_none());
    let current = get_current_workspace(&repo).unwrap();
    assert_eq!(current.workspace.id, 2);
    assert_eq!(current.workspace.name, "Office");
    assert_eq!(current.workspace.core_time_start.as_deref(), Some("09:00"));
    assert_eq!(current.workspace.role_intro.as_deref(), Some("Engineer"));
    assert_eq!(current.unplugged_times.len(), 1);
    assert!(get_current_workspace(&Repository::new()).is_none());
}

#[test]
fn a_workspace_with_a_bad_window_is_not_created() {
    let mut repo = Repository::new();
    match create_workspace(&mut repo, workspace_input("A", vec![window_input("x", "12:00", "noon")])) {
        Err(AppError::DateParse(_)) => {},
        other => panic!("{:?}", other),
    }
    match create_workspace(&mut repo, workspace_input("A", vec![window_input("x", "13:00", "12:00")])) {
        Err(AppError::InvalidInput(_)) => {},
        other => panic!("{:?}", other),
    }
    match create_workspace(&mut repo, workspace_input("A", vec![window_input("x", "12:00", "12:00")])) {
        Err(AppError::InvalidInput(_)) => {},
        other => panic!("{:?}", other),
    }
    match create_workspace(
        &mut repo,
        workspace_input("A", vec![window_input("ok", "12:00", "13:00"), window_input("x", "14:00", "13:00"), window_input("y", "", "")]),
    ) {
        Err(AppError::InvalidInput(_)) => {},
        other => panic!("{:?}", other),
    }
    assert!(repo.workspaces.is_empty());
    assert!(repo.unplugged_times.is_empty());
    repo.next_workspace_id = i64::MAX;
    match create_workspace(&mut repo, workspace_input("A", vec![])) {
        Err(AppError::Internal(_)) => {},
        other => panic!("{:?}", other),
    }
    repo.next_workspace_id = 1;
    repo.next_unplugged_id = i64::MAX;
    match create_workspace(&mut repo, workspace_input("A", vec![window_input("ok", "12:00", "13:00")])) {
        Err(AppError::Internal(_)) => {},
        other => panic!("{:?}", other),
    }
    assert!(create_workspace(&mut repo, workspace_input("A", vec![])).is_ok());
}

#[test]
fn updating_a_workspace_replaces_its_whole_set_of_windows() {
    let mut repo = Repository::new();
    create_workspace(&mut repo, workspace_input("Home", vec![window_input("Lunch", "12:00", "13:00")])).unwrap();
    create_workspace(&mut repo, workspace_input("Office", vec![window_input("Gym", "18:00", "19:30")])).unwrap();
    let mut changed = workspace_input("Home 2", vec![window_input("Tea", "15:00", "15:15"), window_input("Walk", "16:00", "16:30")]);
    changed.core_time_start = None;
    changed.role_intro = None;
    update_workspace(&mut repo, 1, changed).unwrap();
    assert!(repo.is_wf());
    let ws = get_workspace(&repo, 1).unwrap();
    assert_eq!(ws.name, "Home 2");
    assert_eq!(ws.core_time_start, None);
    assert_eq!(ws.core_time_end.as_deref(), Some("18:00"));
    assert_eq!(ws.role_intro, None);
    let windows: Vec<(i64, i64, String)> =
        repo.unplugged_times.iter().map(|w| (w.id, w.workspace_id, w.label.clone())).collect();
    assert_eq!(
        windows,
        vec![(2, 2, "Gym".to_string()), (3, 1, "Tea".to_string()), (4, 1, "Walk".to_string())]
    );
    match update_workspace(&mut repo, 5, workspace_input("X", vec![])) {
        Err(AppError::NotFound(_)) => {},
        other => panic!("{:?}", other),
    }
    match update_workspace(&mut repo, 2, workspace_input("X", vec![window_input("bad", "25:00", "26:00")])) {
        Err(AppError::DateParse(_)) => {},
        other => panic!("{:?}", other),
    }
    assert_eq!(get_workspace(&repo, 2).unwrap().name, "Office");
    assert_eq!(repo.unplugged_times.len(), 3);
    update_workspace(&mut repo, 2, workspace_input("Office", vec![])).unwrap();
    assert_eq!(repo.unplugged_times.len(), 2);
}

#[test]
fn an_empty_core_time_counts_as_none() {
    assert_eq!(normalize_core_time(Some(String::new())), None);
    assert_eq!(normalize_core_time(None), None);
    assert_eq!(normalize_core_time(Some("09:00".to_string())), Some("09:00".to_string()));
    assert_eq!(normalize_core_time(Some(" ".to_string())), Some(" ".to_string()));
}

#[test]
fn the_reads_of_the_repository_find_blocks_by_task_and_by_state() {
    let mut repo = repo_with(
        vec![
            block(1, "13:00", "14:00", BlockStatus::Will),
            block(2, "09:00", "10:00", BlockStatus::Done),
            block(3, "12:00", "12:30", BlockStatus::Now),
            block(4, "09:00", "09:30", BlockStatus::Will),
            block(5, "12:00", "12:10", BlockStatus::Pending),
        ],
        vec![],
    );
    repo.time_blocks[3].workspace_id = 2;
    repo.time_blocks[0].task_id = Some(7);
    repo.time_blocks[2].task_id = Some(7);
    repo.time_blocks[3].task_id = Some(7);
    let ids: Vec<i64> = get_task_blocks(&repo, 7).iter().map(|b| b.id).collect();
    assert_eq!(ids, vec![1, 3, 4]);
    assert!(get_task_blocks(&repo, 8).is_empty());
    assert_eq!(get_last_block_id(&repo, 7), Some(4));
    assert_eq!(get_last_block_id(&repo, 2), Some(2));
    assert_eq!(get_last_block_id(&repo, 9), None);
    let open: Vec<i64> = get_open_blocks(&repo, 1).iter().map(|b| b.id).collect();
    assert_eq!(open, vec![3, 5, 1]);
    let open: Vec<i64> = get_open_blocks(&repo, 2).iter().map(|b| b.id).collect();
    assert_eq!(open, vec![4]);
    assert!(get_open_blocks(&repo, 3).is_empty());
}

#[test]
fn a_window_is_laid_onto_a_day() {
    let lunch = UnpluggedTime {
        id: 1,
        workspace_id: 1,
        label: "Lunch".to_string(),
        start_time: 720,
        end_time: 780,
    };
    let day = at("00:00") / 1440;
    assert_eq!(window_on_day(&lunch, day), (at("12:00"), at("13:00")));
    assert_eq!(window_on_day(&lunch, 1), (1440 + 720, 1440 + 780));
}
