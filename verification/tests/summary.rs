use will_done::clock::timestamp_seconds;
use will_done::summary::build_task_summary;
use will_done::greeting::day_part;
use will_done::summary::decimal_text;
use will_done::summary::elapsed_minutes;
use will_done::greeting::DayPart;

fn two_blocks() -> Vec<(String, Option<String>, Option<String>, String, String)> {
    vec![
        (
            "Task 1".to_string(),
            Some("Planning 1".to_string()),
            Some("Review 1".to_string()),
            "2026-03-01T09:00:00".to_string(),
            "2026-03-01T10:00:00".to_string(),
        ),
        (
            "Task 2".to_string(),
            None,
            None,
            "2026-03-01T10:30:00".to_string(),
            "2026-03-01T11:00:00".to_string(),
        ),
    ]
}

#[test]
fn retrospective_test_build_task_summary() {
    let blocks = two_blocks();

    let summary = build_task_summary(blocks);
    assert!(summary.contains("### Task: Task 1"));
    assert!(summary.contains("- **Duration**: 60 mins"));
    assert!(summary.contains("- **Planning**: Planning 1"));
    assert!(summary.contains("- **Review/Outcome**: Review 1"));
    assert!(summary.contains("### Task: Task 2"));
    assert!(summary.contains("- **Duration**: 30 mins"));
    assert!(summary.contains("- **Planning**: N/A"));
    assert!(summary.contains("- **Review/Outcome**: N/A"));
}

#[test]
fn lib_test_build_task_summary() {
    let blocks = two_blocks();

    let summary = build_task_summary(blocks);
    assert!(summary.contains("### Task: Task 1"));
    assert!(summary.contains("- **Duration**: 60 mins"));
    assert!(summary.contains("- **Planning**: Planning 1"));
    assert!(summary.contains("- **Review/Outcome**: Review 1"));
    assert!(summary.contains("### Task: Task 2"));
    assert!(summary.contains("- **Duration**: 30 mins"));
    assert!(summary.contains("- **Planning**: N/A"));
    assert!(summary.contains("- **Review/Outcome**: N/A"));
}

#[test]
fn the_summary_is_the_entries_one_after_the_other() {
    assert_eq!(build_task_summary(vec![]), "");
    assert_eq!(
        build_task_summary(two_blocks()),
        "### Task: Task 1\n- **Duration**: 60 mins\n- **Planning**: Planning 1\n- **Review/Outcome**: Review 1\n\n\
         ### Task: Task 2\n- **Duration**: 30 mins\n- **Planning**: N/A\n- **Review/Outcome**: N/A\n\n"
    );
    let odd = vec![(
        String::new(),
        Some(String::new()),
        None,
        "not a time".to_string(),
        "1970-01-01T00:59:59".to_string(),
    )];
    assert_eq!(
        build_task_summary(odd),
        "### Task: \n- **Duration**: 59 mins\n- **Planning**: \n- **Review/Outcome**: N/A\n\n"
    );
}

#[test]
fn elapsed_minutes_are_whole_and_rounded_toward_zero() {
    assert_eq!(elapsed_minutes("2026-03-01T09:00:00", "2026-03-01T10:00:00"), 60);
    assert_eq!(elapsed_minutes("2026-03-01T09:00:30", "2026-03-01T10:00:29"), 59);
    assert_eq!(elapsed_minutes("2026-03-01T10:00:29", "2026-03-01T09:00:30"), -59);
    assert_eq!(elapsed_minutes("2026-03-01T23:59:00", "2026-03-02T00:01:00"), 2);
    assert_eq!(elapsed_minutes("x", "y"), 0);
    assert_eq!(elapsed_minutes("x", "1970-01-02T00:00:00"), 1440);
    assert_eq!(elapsed_minutes("1970-01-02T00:00:00", ""), -1440);
    assert_eq!(elapsed_minutes("2026-03-01T09:00:00", "2026-03-01T09:00:59"), 0);
    assert_eq!(timestamp_seconds("1970-01-01T00:00:01"), 719_163 * 86_400 + 1);
    assert_eq!(timestamp_seconds("nothing"), 719_163 * 86_400);
    assert_eq!(timestamp_seconds("0001-01-01T00:00:00"), 86_400);
}

#[test]
fn numbers_are_written_in_decimal() {
    for n in [0i64, 1, 9, 10, 11, 99, 100, 101, 12_345, -1, -9, -10, -1_000, i64::MAX, i64::MIN, i64::MIN + 1] {
        assert_eq!(decimal_text(n), n.to_string());
    }
}

#[test]
fn each_hour_belongs_to_a_part_of_the_day() {
    let expected = [
        (0, DayPart::Night), (3, DayPart::Night), (4, DayPart::Dawn), (5, DayPart::Dawn),
        (6, DayPart::Morning), (10, DayPart::Morning), (11, DayPart::Lunch), (12, DayPart::Lunch),
        (13, DayPart::Afternoon), (17, DayPart::Afternoon), (18, DayPart::Evening),
        (21, DayPart::Evening), (22, DayPart::Night), (23, DayPart::Night),
    ];
    for (hour, part) in expected {
        assert_eq!(day_part(hour), Some(part));
    }
    assert_eq!(day_part(24), None);
    assert_eq!(day_part(u32::MAX), None);
}
