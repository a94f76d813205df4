use doist::api::rest::{Priority, TableTask, Task, TaskTree};
use doist::list::{
    edit_step, pick, priority_change, rows, task_step, text_change, Change, EditOptions, EditStep,
    Params, TaskOptions, TaskStep,
};

fn forest() -> Vec<TaskTree> {
    let tasks = vec![
        Task::new(1, "one"),
        Task {
            parent_id: Some(1),
            ..Task::new(2, "two")
        },
        Task::new(3, "three"),
    ];
    TaskTree::from_tasks(tasks).unwrap()
}

#[test]
fn default_params_list_what_is_due() {
    let params = Params::default();
    assert_eq!(params.filter, "(today | overdue)");
    assert!(!params.interactive);
}

#[test]
fn rows_show_the_topmost_tasks() {
    let trees = forest();
    let lines = rows(&trees);
    assert_eq!(lines.len(), 2);
    assert_eq!(lines[0], "\x1b[91m1\x1b[39m \x1b[39mone\x1b[39m");
    assert_eq!(lines[1], "\x1b[91m3\x1b[39m \x1b[39mthree\x1b[39m");
    assert_eq!(lines[1], TableTask(&trees[1].task).render());
}

#[test]
fn rows_of_no_trees() {
    assert!(rows(&[]).is_empty());
}

#[test]
fn pick_hands_out_the_chosen_tree() {
    let trees = forest();
    assert_eq!(pick(&trees, Some(1)).unwrap().task.id, 3);
    assert_eq!(pick(&trees, Some(0)).unwrap().task.id, 1);
    assert!(pick(&trees, None).is_none());
}

#[test]
fn task_options_follow_the_menu() {
    assert_eq!(TaskOptions::from_repr(0), Some(TaskOptions::Close));
    assert_eq!(TaskOptions::from_repr(1), Some(TaskOptions::Edit));
    assert_eq!(TaskOptions::from_repr(2), Some(TaskOptions::Quit));
    assert_eq!(TaskOptions::from_repr(3), None);
    assert_eq!(TaskOptions::variants(), vec!["Close", "Edit", "Quit"]);
    assert_eq!(TaskOptions::Edit.name(), "Edit");
}

#[test]
fn edit_options_follow_the_menu() {
    assert_eq!(EditOptions::from_repr(0), Some(EditOptions::Name));
    assert_eq!(EditOptions::from_repr(1), Some(EditOptions::Description));
    assert_eq!(EditOptions::from_repr(2), Some(EditOptions::Due));
    assert_eq!(EditOptions::from_repr(3), Some(EditOptions::Priority));
    assert_eq!(EditOptions::from_repr(4), Some(EditOptions::Quit));
    assert_eq!(EditOptions::from_repr(5), None);
    assert_eq!(
        EditOptions::variants(),
        vec!["Name", "Description", "Due", "Priority", "Quit"]
    );
}

#[test]
fn task_menu_decides_what_follows() {
    assert_eq!(task_step(9, None), TaskStep::NoSelection);
    assert_eq!(task_step(9, Some(0)), TaskStep::Close { id: 9 });
    assert_eq!(task_step(9, Some(1)), TaskStep::Edit);
    assert_eq!(task_step(9, Some(2)), TaskStep::Quit);
}

#[test]
fn edit_menu_decides_what_follows() {
    assert_eq!(edit_step(Priority::High, None), EditStep::NoSelection);
    assert_eq!(
        edit_step(Priority::High, Some(0)),
        EditStep::AskText {
            field: EditOptions::Name
        }
    );
    assert_eq!(
        edit_step(Priority::High, Some(1)),
        EditStep::AskText {
            field: EditOptions::Description
        }
    );
    assert_eq!(
        edit_step(Priority::High, Some(2)),
        EditStep::AskText {
            field: EditOptions::Due
        }
    );
    assert_eq!(
        edit_step(Priority::High, Some(3)),
        EditStep::AskPriority { default: 1 }
    );
    assert_eq!(edit_step(Priority::High, Some(4)), EditStep::Quit);
}

#[test]
fn present_priority_is_offered_first() {
    assert_eq!(
        edit_step(Priority::Normal, Some(3)),
        EditStep::AskPriority { default: 0 }
    );
    assert_eq!(
        edit_step(Priority::Urgent, Some(3)),
        EditStep::AskPriority { default: 3 }
    );
}

#[test]
fn priority_is_chosen_by_its_entry() {
    assert!(matches!(
        priority_change(0),
        Some(Change::Priority(Priority::Normal))
    ));
    assert!(matches!(
        priority_change(3),
        Some(Change::Priority(Priority::Urgent))
    ));
    assert!(priority_change(4).is_none());
    assert!(priority_change(usize::MAX).is_none());
}

#[test]
fn text_changes_the_chosen_field() {
    match text_change(EditOptions::Name, "new name".to_string()) {
        Change::Name(text) => assert_eq!(text, "new name"),
        other => panic!("unexpected change {:?}", other),
    }
    match text_change(EditOptions::Description, "more".to_string()) {
        Change::Description(text) => assert_eq!(text, "more"),
        other => panic!("unexpected change {:?}", other),
    }
    match text_change(EditOptions::Due, "tomorrow".to_string()) {
        Change::Due(text) => assert_eq!(text, "tomorrow"),
        other => panic!("unexpected change {:?}", other),
    }
}
