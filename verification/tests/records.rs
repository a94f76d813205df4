use doist::api::rest::{
    zero_to_none, BuildError, Priority, TableTask, Task, TaskTree, Timestamp,
};
use doist::close;

#[test]
fn priority_levels_run_from_one_to_four() {
    assert_eq!(Priority::Normal.level(), 1);
    assert_eq!(Priority::High.level(), 2);
    assert_eq!(Priority::VeryHigh.level(), 3);
    assert_eq!(Priority::Urgent.level(), 4);
}

#[test]
fn priority_is_found_again_from_its_level() {
    for priority in [
        Priority::Normal,
        Priority::High,
        Priority::VeryHigh,
        Priority::Urgent,
    ] {
        assert_eq!(Priority::from_level(priority.level()), Some(priority));
    }
}

#[test]
fn levels_outside_one_to_four_are_no_priority() {
    assert_eq!(Priority::from_level(0), None);
    assert_eq!(Priority::from_level(5), None);
    assert_eq!(Priority::from_level(255), None);
}

#[test]
fn default_priority_is_normal() {
    assert_eq!(Priority::default(), Priority::Normal);
}

#[test]
fn zero_stands_for_no_identifier() {
    assert_eq!(zero_to_none(Some(0)), None);
    assert_eq!(zero_to_none(Some(1)), Some(1));
    assert_eq!(zero_to_none(Some(u64::MAX)), Some(u64::MAX));
    assert_eq!(zero_to_none(None), None);
}

#[test]
fn new_task_is_empty_but_for_id_and_content() {
    let task = Task::new(17, "water the plants");
    assert_eq!(task.id, 17);
    assert_eq!(task.content, "water the plants");
    assert_eq!(task.project_id, 0);
    assert_eq!(task.section_id, None);
    assert_eq!(task.description, "");
    assert!(!task.completed);
    assert!(task.label_ids.is_empty());
    assert_eq!(task.parent_id, None);
    assert_eq!(task.order, 0);
    assert_eq!(task.priority, Priority::Normal);
    assert!(task.due.is_none());
    assert_eq!(task.url, "");
    assert_eq!(task.comment_count, 0);
    assert_eq!(task.assignee, None);
    assert_eq!(task.assigner, None);
}

#[test]
fn new_task_is_created_now() {
    let task = Task::new(1, "one");
    // later than the first of January 2020
    assert!(task.created.secs > 1_577_836_800);
    assert!(task.created.nanos < 2_000_000_000);
}

#[test]
fn task_created_at_keeps_the_instant() {
    let created = Timestamp {
        secs: 1_650_000_000,
        nanos: 250,
    };
    let task = Task::created_at(3, "three", created);
    assert_eq!(task.created, created);
    assert_eq!(task.id, 3);
    assert_eq!(task.content, "three");
    assert_eq!(task.parent_id, None);
}

#[test]
fn table_row_is_red_id_and_content() {
    let task = Task::new(42, "buy milk");
    assert_eq!(
        TableTask(&task).render(),
        "\x1b[91m42\x1b[39m \x1b[39mbuy milk\x1b[39m"
    );
}

#[test]
fn table_row_of_id_zero() {
    let task = Task::new(0, "");
    assert_eq!(TableTask(&task).render(), "\x1b[91m0\x1b[39m \x1b[39m\x1b[39m");
}

#[test]
fn table_row_of_a_long_id() {
    let task = Task::new(18_446_744_073_709_551_615, "x");
    assert_eq!(
        TableTask(&task).render(),
        "\x1b[91m18446744073709551615\x1b[39m \x1b[39mx\x1b[39m"
    );
}

#[test]
fn error_message_counts_the_tasks() {
    let tasks = vec![
        Task {
            parent_id: Some(1),
            ..Task::new(2, "two")
        },
        Task {
            parent_id: Some(2),
            ..Task::new(3, "three")
        },
    ];
    let err = TaskTree::from_tasks(tasks).unwrap_err();
    assert_eq!(err.count(), 2);
    assert_eq!(err.message(), "missing parent nodes in 2 subtasks");
}

#[test]
fn error_message_of_many_tasks() {
    let ids: Vec<u64> = (1..=120).collect();
    let err = BuildError::UnresolvedParents { ids };
    assert_eq!(err.count(), 120);
    assert_eq!(err.message(), "missing parent nodes in 120 subtasks");
}

#[test]
fn closing_is_reported_with_the_id_in_red() {
    let params = close::Params::new(7001);
    assert_eq!(params.id, 7001);
    assert_eq!(params.report(), "closed task \x1b[91m7001\x1b[39m");
}
