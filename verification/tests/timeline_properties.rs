use will_done::clock::parse_timestamp;
use will_done::inbox::delete_task;
use will_done::inbox::move_all_to_timeline_at;
use will_done::inbox::move_to_inbox;
use will_done::inbox::move_to_timeline_at;
use will_done::models::AddTaskInput;
use will_done::models::BlockStatus;
use will_done::models::TaskTransitionInput;
use will_done::models::TimeBlock;
use will_done::models::UnpluggedTime;
use will_done::reorderer::reorder_blocks;
use will_done::repository::Repository;
use will_done::scheduler::add_task_at;
use will_done::split_deletion::handle_split_task_deletion;
use will_done::transitioner::process_task_transition_at;
use will_done::transitioner::update_block_status;

fn at(clock: &str) -> i64 {
    parse_timestamp(&format!("2026-03-01T{}:00", clock)).unwrap()
}

fn no_overlap(blocks: &[TimeBlock]) -> bool {
    blocks.iter().enumerate().all(|(i, a)| {
        blocks.iter().enumerate().all(|(j, b)| {
            i == j
                || a.workspace_id != b.workspace_id
                || !(a.start_time < b.end_time && b.start_time < a.end_time)
        })
    })
}

fn avoids_windows(blocks: &[TimeBlock], windows: &[UnpluggedTime]) -> bool {
    blocks.iter().all(|b| {
        let base = b.start_time.div_euclid(1440) * 1440;
        windows.iter().all(|w| {
            w.workspace_id != b.workspace_id
                || !(base + w.start_time < b.end_time && b.start_time < base + w.end_time)
        })
    })
}

fn ids_follow_starts(blocks: &[TimeBlock]) -> bool {
    blocks.iter().all(|a| {
        blocks
            .iter()
            .all(|b| !(a.task_id == b.task_id && a.id < b.id) || a.start_time < b.start_time)
    })
}

fn one_active_per_task(blocks: &[TimeBlock]) -> bool {
    blocks.iter().enumerate().all(|(i, a)| {
        blocks.iter().enumerate().all(|(j, b)| {
            i == j
                || a.task_id != b.task_id
                || !(a.status == BlockStatus::Now && b.status == BlockStatus::Now)
        })
    })
}

fn all_nonempty(blocks: &[TimeBlock]) -> bool {
    blocks.iter().all(|b| b.start_time < b.end_time)
}

fn holds_all(repo: &Repository) -> bool {
    repo.is_wf()
        && no_overlap(&repo.time_blocks)
        && avoids_windows(&repo.time_blocks, &repo.unplugged_times)
        && ids_follow_starts(&repo.time_blocks)
        && one_active_per_task(&repo.time_blocks)
        && all_nonempty(&repo.time_blocks)
}

fn request(title: &str, minutes: i32, urgent: bool, inbox: bool) -> AddTaskInput {
    AddTaskInput {
        workspace_id: 1,
        title: title.to_string(),
        hours: 0,
        minutes,
        planning_memo: None,
        is_urgent: urgent,
        is_inbox: Some(inbox),
    }
}

fn transition(block_id: i64, action: &str, extra: Option<i32>) -> TaskTransitionInput {
    TaskTransitionInput { block_id, action: action.to_string(), extra_minutes: extra, review_memo: None }
}

fn with_windows() -> Repository {
    let mut repo = Repository::new();
    repo.unplugged_times = vec![
        UnpluggedTime { id: 1, workspace_id: 1, label: "Lunch".to_string(), start_time: 720, end_time: 780 },
        UnpluggedTime { id: 2, workspace_id: 1, label: "Break".to_string(), start_time: 600, end_time: 615 },
        UnpluggedTime { id: 3, workspace_id: 2, label: "Else".to_string(), start_time: 540, end_time: 1000 },
    ];
    repo.next_unplugged_id = 4;
    assert!(holds_all(&repo));
    repo
}

#[test]
fn commands_that_do_not_shift_keep_all_five_properties() {
    let mut repo = with_windows();
    add_task_at(&mut repo, request("A", 50, false, false), at("09:30")).unwrap();
    assert!(holds_all(&repo));
    add_task_at(&mut repo, request("B", 130, false, false), at("09:00")).unwrap();
    assert!(holds_all(&repo));
    add_task_at(&mut repo, request("C", 20, false, true), at("09:00")).unwrap();
    add_task_at(&mut repo, request("D", 0, false, true), at("09:00")).unwrap();
    add_task_at(&mut repo, request("E", 600, false, true), at("09:00")).unwrap();
    assert!(holds_all(&repo));
    move_to_timeline_at(&mut repo, 3, 1, at("09:00")).unwrap();
    assert!(holds_all(&repo));
    move_all_to_timeline_at(&mut repo, 1, at("09:10")).unwrap();
    assert!(holds_all(&repo));
    assert_eq!(repo.time_blocks.len(), 2 + 2 + 1 + 1);
    assert_eq!(repo.tasks.len(), 5);
    let last = repo.time_blocks.last().unwrap().id;
    update_block_status(&mut repo, 2, "NOW").unwrap();
    assert!(holds_all(&repo));
    process_task_transition_at(&mut repo, transition(last, "COMPLETE_ON_TIME", None), at("09:10")).unwrap();
    assert!(holds_all(&repo));
    move_to_inbox(&mut repo, 3).unwrap();
    assert!(holds_all(&repo));
    handle_split_task_deletion(&mut repo, 1, true).unwrap();
    assert!(holds_all(&repo));
    delete_task(&mut repo, 3).unwrap();
    assert!(holds_all(&repo));
    handle_split_task_deletion(&mut repo, 4, false).unwrap();
    assert!(holds_all(&repo));
}

#[test]
fn a_clean_preemption_keeps_the_blocks_apart() {
    let mut repo = Repository::new();
    add_task_at(&mut repo, request("A", 60, false, false), at("09:00")).unwrap();
    add_task_at(&mut repo, request("B", 30, false, false), at("09:00")).unwrap();
    update_block_status(&mut repo, 1, "NOW").unwrap();
    add_task_at(&mut repo, request("U", 25, true, false), at("09:20")).unwrap();
    assert!(holds_all(&repo));
    let last_of_urgent = repo.time_blocks.iter().filter(|b| b.is_urgent).map(|b| b.id).max().unwrap();
    process_task_transition_at(&mut repo, transition(last_of_urgent, "COMPLETE_NOW", None), at("09:40")).unwrap();
    assert!(repo.is_wf());
    assert!(one_active_per_task(&repo.time_blocks));
    assert!(all_nonempty(&repo.time_blocks));
}

#[test]
fn a_reorder_can_lay_a_block_into_a_window() {
    let mut repo = with_windows();
    add_task_at(&mut repo, request("A", 60, false, false), at("10:30")).unwrap();
    add_task_at(&mut repo, request("B", 40, false, false), at("10:30")).unwrap();
    assert!(holds_all(&repo));
    assert_eq!(repo.time_blocks.len(), 3);
    reorder_blocks(&mut repo, 1, vec![2, 3, 1]).unwrap();
    assert_eq!(repo.time_blocks[0].start_time, at("11:10"));
    assert_eq!(repo.time_blocks[0].end_time, at("12:10"));
    assert!(repo.is_wf());
    assert!(all_nonempty(&repo.time_blocks));
    assert!(one_active_per_task(&repo.time_blocks));
    assert!(!avoids_windows(&repo.time_blocks, &repo.unplugged_times));
}

#[test]
fn an_urgent_task_behind_a_window_pushes_the_resumed_block_into_its_successor() {
    let mut repo = with_windows();
    add_task_at(&mut repo, request("A", 60, false, false), at("11:00")).unwrap();
    add_task_at(&mut repo, request("B", 30, false, false), at("11:00")).unwrap();
    update_block_status(&mut repo, 1, "NOW").unwrap();
    assert!(holds_all(&repo));
    add_task_at(&mut repo, request("U", 40, true, false), at("11:30")).unwrap();
    assert!(repo.is_wf());
    assert!(one_active_per_task(&repo.time_blocks));
    assert!(all_nonempty(&repo.time_blocks));
    assert!(!no_overlap(&repo.time_blocks));
}

#[test]
fn a_long_run_of_commands_keeps_the_store_well_formed() {
    let mut repo = with_windows();
    let mut seed: u64 = 0x2545_f491_4f6c_dd1d;
    let mut next = move |bound: u64| {
        seed ^= seed << 13;
        seed ^= seed >> 7;
        seed ^= seed << 17;
        seed % bound
    };
    let mut now = at("08:00");
    for step in 0..400 {
        now += next(7) as i64;
        let pick = next(12);
        let blocks = repo.time_blocks.len() as u64;
        let tasks = repo.tasks.len() as u64;
        let some_block = if blocks > 0 { repo.time_blocks[next(blocks) as usize].id } else { 0 };
        let some_task = if tasks > 0 { repo.tasks[next(tasks) as usize].id } else { 0 };
        let outcome = match pick {
            0 | 1 => add_task_at(&mut repo, request("t", next(90) as i32, false, next(3) == 0), now),
            2 => add_task_at(&mut repo, request("u", next(45) as i32 - 5, true, false), now),
            3 => move_to_timeline_at(&mut repo, some_task, 1, now),
            4 => move_all_to_timeline_at(&mut repo, 1, now),
            5 => move_to_inbox(&mut repo, some_block),
            6 => delete_task(&mut repo, some_task),
            7 => handle_split_task_deletion(&mut repo, some_task, next(2) == 0),
            8 => {
                let action = ["COMPLETE_ON_TIME", "COMPLETE_NOW", "COMPLETE_AGO", "DELAY", "NAP"][next(5) as usize];
                process_task_transition_at(&mut repo, transition(some_block, action, Some(next(30) as i32 - 10)), now)
            },
            9 => {
                let status = ["WILL", "NOW", "PENDING", "DONE", "UNPLUGGED"][next(5) as usize];
                update_block_status(&mut repo, some_block, status)
            },
            _ => {
                let mut ids: Vec<i64> = repo.time_blocks.iter().map(|b| b.id).collect();
                if !ids.is_empty() {
                    let k = next(ids.len() as u64) as usize;
                    ids.rotate_left(k);
                }
                reorder_blocks(&mut repo, 1, ids)
            },
        };
        let _ = outcome;
        assert!(repo.is_wf(), "step {}", step);
        assert!(repo.time_blocks.iter().all(|b| b.task_id.is_some()));
    }
    assert!(repo.next_task_id > 50);
}
