use will_done::clock::now_instant;
use will_done::clock::parse_timestamp;
use will_done::error::AppError;
use will_done::models::BlockStatus;
use will_done::models::Task;
use will_done::models::TaskTransitionInput;
use will_done::models::TimeBlock;
use will_done::models::TransitionAction;
use will_done::repository::Repository;
use will_done::split_deletion::handle_split_task_deletion;
use will_done::transitioner::process_task_transition;
use will_done::transitioner::process_task_transition_at;
use will_done::transitioner::update_block_status;

fn at(clock: &str) -> i64 {
    parse_timestamp(&format!("2026-03-01T{}:00", clock)).unwrap()
}

fn task(id: i64, title: &str) -> Task {
    Task {
        id,
        workspace_id: 1,
        title: title.to_string(),
        planning_memo: Some("plan".to_string()),
        estimated_minutes: 60,
    }
}

fn block(id: i64, task_id: i64, start: &str, end: &str, status: BlockStatus) -> TimeBlock {
    TimeBlock {
        id,
        task_id: Some(task_id),
        workspace_id: 1,
        title: "Split Task".to_string(),
        start_time: at(start),
        end_time: at(end),
        status,
        review_memo: None,
        is_urgent: false,
    }
}

fn repo_with(tasks: Vec<Task>, blocks: Vec<TimeBlock>) -> Repository {
    let mut repo = Repository::new();
    repo.next_task_id = tasks.iter().map(|t| t.id + 1).max().unwrap_or(1);
    repo.next_block_id = blocks.iter().map(|b| b.id + 1).max().unwrap_or(1);
    repo.tasks = tasks;
    repo.time_blocks = blocks;
    assert!(repo.is_wf());
    repo
}

fn transition(block_id: i64, action: &str, extra: Option<i32>) -> TaskTransitionInput {
    TaskTransitionInput {
        block_id,
        action: action.to_string(),
        extra_minutes: extra,
        review_memo: Some("went well".to_string()),
    }
}

fn times(repo: &Repository) -> Vec<(i64, i64, i64, BlockStatus)> {
    repo.time_blocks.iter().map(|b| (b.id, b.start_time, b.end_time, b.status)).collect()
}

fn split_task() -> Repository {
    repo_with(
        vec![task(10, "Split Task")],
        vec![
            block(101, 10, "09:00", "10:00", BlockStatus::Pending),
            block(102, 10, "10:00", "11:00", BlockStatus::Now),
            block(103, 10, "11:00", "12:00", BlockStatus::Will),
        ],
    )
}

#[test]
fn test_handle_split_task_deletion_keep_past() {
    let mut repo = split_task();

    handle_split_task_deletion(&mut repo, 10, true).unwrap();

    // the task itself is gone
    assert!(repo.tasks.iter().all(|t| t.id != 10));

    // the planned block is gone
    assert!(repo.time_blocks.iter().all(|b| b.id != 103));

    // the frozen and the active block stay and are finished
    let block_101 = repo.time_blocks.iter().find(|b| b.id == 101).unwrap();
    let block_102 = repo.time_blocks.iter().find(|b| b.id == 102).unwrap();

    assert_eq!(block_101.status.as_text(), "DONE");
    assert_eq!(block_102.status.as_text(), "DONE");

    // each belongs to a new task of its own
    assert!(block_101.task_id.is_some());
    assert!(block_102.task_id.is_some());
    assert_ne!(block_101.task_id.unwrap(), 10);
    assert_ne!(block_102.task_id.unwrap(), 10);
    assert_ne!(block_101.task_id.unwrap(), block_102.task_id.unwrap());

    // the new tasks are stored
    assert_eq!(repo.tasks.len(), 2);
}

#[test]
fn keeping_the_past_hands_each_block_to_a_task_like_the_old_one() {
    let mut repo = split_task();
    repo.tasks.push(task(11, "Other"));
    repo.next_task_id = 12;
    repo.time_blocks.push(block(104, 11, "12:00", "13:00", BlockStatus::Will));
    repo.next_block_id = 105;
    handle_split_task_deletion(&mut repo, 10, true).unwrap();
    assert!(repo.is_wf());
    assert_eq!(
        times(&repo),
        vec![
            (101, at("09:00"), at("10:00"), BlockStatus::Done),
            (102, at("10:00"), at("11:00"), BlockStatus::Done),
            (104, at("12:00"), at("13:00"), BlockStatus::Will),
        ]
    );
    let owners: Vec<Option<i64>> = repo.time_blocks.iter().map(|b| b.task_id).collect();
    assert_eq!(owners, vec![Some(12), Some(13), Some(11)]);
    let ids: Vec<i64> = repo.tasks.iter().map(|t| t.id).collect();
    assert_eq!(ids, vec![11, 12, 13]);
    for heir in &repo.tasks[1..] {
        assert_eq!(heir.title, "Split Task");
        assert_eq!(heir.planning_memo.as_deref(), Some("plan"));
        assert_eq!(heir.estimated_minutes, 0);
        assert_eq!(heir.workspace_id, 1);
    }
    assert_eq!(repo.next_task_id, 14);
}

#[test]
fn deleting_a_split_task_without_its_past_removes_everything() {
    let mut repo = split_task();
    handle_split_task_deletion(&mut repo, 10, false).unwrap();
    assert!(repo.tasks.is_empty());
    assert!(repo.time_blocks.is_empty());
    handle_split_task_deletion(&mut repo, 10, false).unwrap();
    match handle_split_task_deletion(&mut repo, 10, true) {
        Err(AppError::NotFound(_)) => {},
        other => panic!("{:?}", other),
    }
    let mut repo = split_task();
    repo.next_task_id = i64::MAX - 1;
    match handle_split_task_deletion(&mut repo, 10, true) {
        Err(AppError::Internal(_)) => {},
        other => panic!("{:?}", other),
    }
    assert_eq!(repo.tasks.len(), 1);
    assert_eq!(repo.time_blocks.len(), 3);
    assert_eq!(repo.time_blocks[1].status, BlockStatus::Now);
    assert_eq!(repo.time_blocks[1].task_id, Some(10));
}

fn two_planned() -> Repository {
    repo_with(
        vec![task(1, "A"), task(2, "B")],
        vec![
            block(1, 1, "09:00", "10:00", BlockStatus::Will),
            block(2, 1, "10:00", "11:00", BlockStatus::Will),
            block(3, 2, "11:00", "12:00", BlockStatus::Will),
        ],
    )
}

#[test]
fn only_the_last_block_of_a_task_can_be_transitioned() {
    let mut repo = two_planned();
    match process_task_transition_at(&mut repo, transition(1, "COMPLETE_NOW", None), at("10:30")) {
        Err(AppError::InvalidInput(detail)) => {
            assert_eq!(detail, "Only the last block of a split task can be transitioned.")
        },
        other => panic!("{:?}", other),
    }
    assert_eq!(times(&repo), times(&two_planned()));
    process_task_transition_at(&mut repo, transition(2, "COMPLETE_NOW", None), at("10:30")).unwrap();
    assert_eq!(
        times(&repo),
        vec![
            (1, at("09:00"), at("10:00"), BlockStatus::Done),
            (2, at("10:00"), at("10:30"), BlockStatus::Done),
            (3, at("10:30"), at("11:30"), BlockStatus::Will),
        ]
    );
    assert_eq!(repo.time_blocks[1].review_memo.as_deref(), Some("went well"));
    assert_eq!(repo.time_blocks[0].review_memo, None);
    assert!(repo.is_wf());
}

#[test]
fn completing_on_time_shifts_nothing() {
    let mut repo = two_planned();
    process_task_transition_at(&mut repo, transition(2, "COMPLETE_ON_TIME", Some(7)), at("10:30"))
        .unwrap();
    assert_eq!(
        times(&repo),
        vec![
            (1, at("09:00"), at("10:00"), BlockStatus::Done),
            (2, at("10:00"), at("11:00"), BlockStatus::Done),
            (3, at("11:00"), at("12:00"), BlockStatus::Will),
        ]
    );
    process_task_transition_at(&mut repo, transition(3, "COMPLETE_ON_TIME", None), 0).unwrap();
    assert_eq!(repo.time_blocks[2].status, BlockStatus::Done);
}

#[test]
fn completing_late_pushes_the_successors() {
    let mut repo = two_planned();
    process_task_transition_at(&mut repo, transition(2, "COMPLETE_NOW", None), at("11:20")).unwrap();
    assert_eq!(
        times(&repo),
        vec![
            (1, at("09:00"), at("10:00"), BlockStatus::Done),
            (2, at("10:00"), at("11:20"), BlockStatus::Done),
            (3, at("11:20"), at("12:20"), BlockStatus::Will),
        ]
    );
}

#[test]
fn completing_a_while_ago_ends_the_block_before_now() {
    let mut repo = two_planned();
    process_task_transition_at(&mut repo, transition(2, "COMPLETE_AGO", Some(15)), at("10:50"))
        .unwrap();
    assert_eq!(
        times(&repo),
        vec![
            (1, at("09:00"), at("10:00"), BlockStatus::Done),
            (2, at("10:00"), at("10:35"), BlockStatus::Done),
            (3, at("10:35"), at("11:35"), BlockStatus::Will),
        ]
    );
    let mut repo = two_planned();
    process_task_transition_at(&mut repo, transition(2, "COMPLETE_AGO", None), at("10:50")).unwrap();
    assert_eq!(repo.time_blocks[1].end_time, at("10:50"));
    let mut repo = two_planned();
    process_task_transition_at(&mut repo, transition(2, "COMPLETE_AGO", Some(50)), at("10:50"))
        .unwrap();
    assert_eq!(repo.time_blocks[1].end_time, at("10:00"));
    let mut repo = two_planned();
    match process_task_transition_at(&mut repo, transition(2, "COMPLETE_AGO", Some(51)), at("10:50")) {
        Err(AppError::InvalidInput(_)) => {},
        other => panic!("{:?}", other),
    }
    assert_eq!(times(&repo), times(&two_planned()));
}

#[test]
fn delaying_extends_the_block_and_pushes_the_successors() {
    let mut repo = two_planned();
    repo.time_blocks[1].status = BlockStatus::Now;
    process_task_transition_at(&mut repo, transition(2, "DELAY", Some(25)), at("10:30")).unwrap();
    assert_eq!(
        times(&repo),
        vec![
            (1, at("09:00"), at("10:00"), BlockStatus::Will),
            (2, at("10:00"), at("11:25"), BlockStatus::Now),
            (3, at("11:25"), at("12:25"), BlockStatus::Will),
        ]
    );
    assert_eq!(repo.time_blocks[1].review_memo, None);
    process_task_transition_at(&mut repo, transition(2, "DELAY", None), at("10:30")).unwrap();
    assert_eq!(repo.time_blocks[1].end_time, at("11:25"));
    process_task_transition_at(&mut repo, transition(2, "DELAY", Some(-25)), at("10:30")).unwrap();
    assert_eq!(repo.time_blocks[1].end_time, at("11:00"));
    assert_eq!(repo.time_blocks[2].start_time, at("11:00"));
}

#[test]
fn a_delay_undone_by_completing_at_the_planned_end_restores_the_successors() {
    let mut repo = two_planned();
    process_task_transition_at(&mut repo, transition(2, "DELAY", Some(40)), at("10:30")).unwrap();
    assert_eq!(repo.time_blocks[2].start_time, at("11:40"));
    process_task_transition_at(&mut repo, transition(2, "COMPLETE_NOW", None), at("11:00")).unwrap();
    assert_eq!(
        times(&repo),
        vec![
            (1, at("09:00"), at("10:00"), BlockStatus::Done),
            (2, at("10:00"), at("11:00"), BlockStatus::Done),
            (3, at("11:00"), at("12:00"), BlockStatus::Will),
        ]
    );
}

#[test]
fn a_transition_is_rejected_for_unknown_blocks_actions_and_times() {
    let mut repo = two_planned();
    match process_task_transition_at(&mut repo, transition(9, "DELAY", Some(5)), at("10:30")) {
        Err(AppError::NotFound(_)) => {},
        other => panic!("{:?}", other),
    }
    match process_task_transition_at(&mut repo, transition(2, "COMPLETE", None), at("10:30")) {
        Err(AppError::InvalidInput(detail)) => assert_eq!(detail, "Invalid action"),
        other => panic!("{:?}", other),
    }
    match process_task_transition_at(&mut repo, transition(2, "delay", None), at("10:30")) {
        Err(AppError::InvalidInput(_)) => {},
        other => panic!("{:?}", other),
    }
    match process_task_transition_at(&mut repo, transition(2, "COMPLETE_NOW", None), 7) {
        Err(AppError::InvalidInput(_)) => {},
        other => panic!("{:?}", other),
    }
    match process_task_transition_at(&mut repo, transition(2, "COMPLETE_NOW", None), i64::MAX) {
        Err(AppError::InvalidInput(_)) => {},
        other => panic!("{:?}", other),
    }
    match process_task_transition_at(&mut repo, transition(2, "COMPLETE_AGO", Some(i32::MIN)), i64::MAX) {
        Err(AppError::InvalidInput(_)) => {},
        other => panic!("{:?}", other),
    }
    match process_task_transition_at(&mut repo, transition(2, "COMPLETE_NOW", None), 5_258_966_399) {
        Err(AppError::InvalidInput(_)) => {},
        other => panic!("{:?}", other),
    }
    assert_eq!(times(&repo), times(&two_planned()));
    assert_eq!(TransitionAction::parse("DELAY"), Some(TransitionAction::Delay));
    assert_eq!(TransitionAction::parse("COMPLETE_NOW"), Some(TransitionAction::CompleteNow));
    assert_eq!(TransitionAction::parse("COMPLETE_AGO"), Some(TransitionAction::CompleteAgo));
    assert_eq!(TransitionAction::parse("COMPLETE_ON_TIME"), Some(TransitionAction::CompleteOnTime));
    assert_eq!(TransitionAction::parse(""), None);
}

#[test]
fn a_transition_by_the_clock_completes_the_block() {
    let mut repo = two_planned();
    process_task_transition(&mut repo, transition(3, "COMPLETE_ON_TIME", None)).unwrap();
    assert_eq!(repo.time_blocks[2].status, BlockStatus::Done);
    assert_eq!(repo.time_blocks[2].end_time, at("12:00"));
}

#[test]
fn the_status_of_the_last_block_can_be_set() {
    let mut repo = two_planned();
    update_block_status(&mut repo, 2, "NOW").unwrap();
    assert_eq!(repo.time_blocks[1].status, BlockStatus::Now);
    update_block_status(&mut repo, 2, "PENDING").unwrap();
    assert_eq!(repo.time_blocks[1].status, BlockStatus::Pending);
    update_block_status(&mut repo, 2, "DONE").unwrap();
    assert_eq!(repo.time_blocks[1].status, BlockStatus::Done);
    update_block_status(&mut repo, 2, "WILL").unwrap();
    assert_eq!(repo.time_blocks[1].status, BlockStatus::Will);
    match update_block_status(&mut repo, 1, "DONE") {
        Err(AppError::InvalidInput(detail)) => {
            assert_eq!(detail, "Only the last block of a split task can be modified.")
        },
        other => panic!("{:?}", other),
    }
    match update_block_status(&mut repo, 8, "DONE") {
        Err(AppError::NotFound(_)) => {},
        other => panic!("{:?}", other),
    }
    for bad in ["UNPLUGGED", "Done", ""] {
        match update_block_status(&mut repo, 2, bad) {
            Err(AppError::InvalidInput(_)) => {},
            other => panic!("{:?}", other),
        }
    }
    assert_eq!(times(&repo), times(&two_planned()));
    assert_eq!(BlockStatus::parse("UNPLUGGED"), Some(BlockStatus::Unplugged));
    assert_eq!(BlockStatus::Unplugged.as_text(), "UNPLUGGED");
    assert_eq!(BlockStatus::Will.as_text(), "WILL");
    assert_eq!(BlockStatus::Now.as_text(), "NOW");
}

#[test]
fn a_delay_by_the_clock_goes_by_the_planned_end() {
    let mut repo = two_planned();
    process_task_transition(&mut repo, transition(2, "DELAY", Some(15))).unwrap();
    assert_eq!(
        times(&repo),
        vec![
            (1, at("09:00"), at("10:00"), BlockStatus::Will),
            (2, at("10:00"), at("11:15"), BlockStatus::Will),
            (3, at("11:15"), at("12:15"), BlockStatus::Will),
        ]
    );
}

#[test]
fn a_rejected_transition_by_the_clock_changes_nothing() {
    let mut repo = two_planned();
    match process_task_transition(&mut repo, transition(1, "COMPLETE_NOW", None)) {
        Err(AppError::InvalidInput(detail)) => {
            assert_eq!(detail, "Only the last block of a split task can be transitioned.")
        },
        other => panic!("{:?}", other),
    }
    match process_task_transition(&mut repo, transition(9, "COMPLETE_NOW", None)) {
        Err(AppError::NotFound(_)) => {},
        other => panic!("{:?}", other),
    }
    match process_task_transition(&mut repo, transition(3, "FINISH", None)) {
        Err(AppError::InvalidInput(_)) => {},
        other => panic!("{:?}", other),
    }
    assert_eq!(times(&repo), times(&two_planned()));
}

#[test]
fn completing_now_by_the_clock_ends_the_block_at_the_reading() {
    let mut repo = two_planned();
    let before = now_instant().expect("the clock is within the calendar");
    process_task_transition(&mut repo, transition(3, "COMPLETE_NOW", None)).unwrap();
    let after = now_instant().expect("the clock is within the calendar");
    assert_eq!(repo.time_blocks[2].status, BlockStatus::Done);
    assert!(before <= repo.time_blocks[2].end_time && repo.time_blocks[2].end_time <= after);
    assert_eq!(repo.time_blocks[2].start_time, at("11:00"));
    assert_eq!(repo.time_blocks[2].review_memo, Some("went well".to_string()));
    assert_eq!(repo.time_blocks[1].status, BlockStatus::Will);
}
