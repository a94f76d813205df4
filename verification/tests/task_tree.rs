use doist::api::rest::{BuildError, Task, TaskTree};

fn child(id: u64, content: &str, parent: u64) -> Task {
    Task {
        parent_id: Some(parent),
        ..Task::new(id, content)
    }
}

#[test]
fn test_tree_no_subtasks() {
    let tasks = vec![
        Task::new(1, "one"),
        Task::new(2, "two"),
        Task::new(3, "three"),
    ];
    let trees = TaskTree::from_tasks(tasks).unwrap();
    assert_eq!(trees.len(), 3);
}

#[test]
fn test_tree_some_subtasks() {
    let tasks = vec![
        Task::new(1, "one"),
        Task::new(2, "two"),
        Task::new(3, "three"),
        Task {
            parent_id: Some(1),
            ..Task::new(4, "four")
        },
    ];
    let trees = TaskTree::from_tasks(tasks).unwrap();
    assert_eq!(trees.len(), 3);
    let task = trees.iter().filter(|t| t.task.id == 1).collect::<Vec<_>>();
    assert_eq!(task.len(), 1);
    let task = task[0];
    assert_eq!(task.subtasks.len(), 1);
    assert_eq!(task.subtasks[0].task.id, 4);
    for task in trees.into_iter().filter(|t| t.task.id != 1) {
        assert_eq!(task.subtasks.len(), 0);
    }
}

#[test]
fn task_tree_complex_subtasks() {
    let tasks = vec![
        Task::new(1, "one"),
        Task {
            parent_id: Some(1),
            ..Task::new(2, "two")
        },
        Task {
            parent_id: Some(2),
            ..Task::new(3, "three")
        },
        Task {
            parent_id: Some(3),
            ..Task::new(4, "four")
        },
    ];
    let trees = TaskTree::from_tasks(tasks).unwrap();
    assert_eq!(trees.len(), 1);
    assert_eq!(trees[0].task.id, 1);
    assert_eq!(trees[0].subtasks[0].task.id, 2);
    assert_eq!(trees[0].subtasks[0].subtasks[0].task.id, 3);
    assert_eq!(trees[0].subtasks[0].subtasks[0].subtasks[0].task.id, 4);
}

#[test]
fn task_tree_bad_input() {
    let tasks = vec![
        Task {
            parent_id: Some(1),
            ..Task::new(2, "two")
        },
        Task {
            parent_id: Some(2),
            ..Task::new(3, "three")
        },
    ];
    assert!(TaskTree::from_tasks(tasks).is_err());
}

#[test]
fn roots_without_children_are_childless() {
    let tasks = vec![
        Task::new(1, "one"),
        Task::new(2, "two"),
        Task::new(3, "three"),
    ];
    let trees = TaskTree::from_tasks(tasks).unwrap();
    let ids: Vec<u64> = trees.iter().map(|t| t.task.id).collect();
    assert_eq!(ids, vec![1, 2, 3]);
    for tree in trees.iter() {
        assert!(tree.subtasks.is_empty());
    }
    assert_eq!(trees[1].task.content, "two");
}

#[test]
fn empty_batch_is_an_empty_forest() {
    let trees = TaskTree::from_tasks(Vec::new()).unwrap();
    assert!(trees.is_empty());
}

fn chain_ids(tree: &TaskTree) -> Vec<u64> {
    let mut ids = vec![tree.task.id];
    let mut node = tree;
    while node.subtasks.len() == 1 {
        node = &node.subtasks[0];
        ids.push(node.task.id);
    }
    assert!(node.subtasks.is_empty());
    ids
}

fn permutations(items: Vec<u64>) -> Vec<Vec<u64>> {
    if items.len() <= 1 {
        return vec![items];
    }
    let mut all = Vec::new();
    for i in 0..items.len() {
        let mut rest = items.clone();
        let first = rest.remove(i);
        for mut tail in permutations(rest) {
            tail.insert(0, first);
            all.push(tail);
        }
    }
    all
}

#[test]
fn chain_is_rebuilt_from_every_order() {
    let orders = permutations(vec![1, 2, 3, 4]);
    assert_eq!(orders.len(), 24);
    for order in orders {
        let tasks: Vec<Task> = order
            .iter()
            .map(|&id| {
                if id == 1 {
                    Task::new(1, "one")
                } else {
                    child(id, "link", id - 1)
                }
            })
            .collect();
        let trees = TaskTree::from_tasks(tasks).unwrap();
        assert_eq!(trees.len(), 1);
        assert_eq!(chain_ids(&trees[0]), vec![1, 2, 3, 4]);
    }
}

#[test]
fn reversed_chain_resolves() {
    let n: u64 = 40;
    let mut tasks = Vec::new();
    for id in (2..=n).rev() {
        tasks.push(child(id, "link", id - 1));
    }
    tasks.push(Task::new(1, "root"));
    let trees = TaskTree::from_tasks(tasks).unwrap();
    assert_eq!(trees.len(), 1);
    let expected: Vec<u64> = (1..=n).collect();
    assert_eq!(chain_ids(&trees[0]), expected);
}

#[test]
fn long_reversed_chain_is_built_in_bounded_work() {
    // every pass over the queue attaches one task only
    let n: u64 = 1500;
    let mut tasks = Vec::new();
    for id in (2..=n).rev() {
        tasks.push(child(id, "link", id - 1));
    }
    tasks.push(Task::new(1, "root"));
    let trees = TaskTree::from_tasks(tasks).unwrap();
    assert_eq!(trees.len(), 1);
    let mut depth = 1;
    let mut node = &trees[0];
    while let Some(next) = node.subtasks.first() {
        assert_eq!(next.task.id, node.task.id + 1);
        node = next;
        depth += 1;
    }
    assert_eq!(depth, n);
}

#[test]
fn long_broken_chain_is_refused_in_bounded_work() {
    let n: u64 = 1500;
    let mut tasks = Vec::new();
    for id in (2..=n).rev() {
        tasks.push(child(id, "link", id - 1));
    }
    let err = TaskTree::from_tasks(tasks).unwrap_err();
    assert_eq!(err.count(), 1499);
}

#[test]
fn children_of_a_root_keep_the_order_of_the_batch() {
    let tasks = vec![
        child(12, "b", 1),
        Task::new(1, "root"),
        child(11, "a", 1),
        child(13, "c", 1),
    ];
    let trees = TaskTree::from_tasks(tasks).unwrap();
    assert_eq!(trees.len(), 1);
    let ids: Vec<u64> = trees[0].subtasks.iter().map(|t| t.task.id).collect();
    assert_eq!(ids, vec![12, 11, 13]);
}

#[test]
fn children_after_their_parent_come_first() {
    // 5 is attached in the second pass; of its children, 7 stands behind it
    // in the batch and 6 before it.
    let tasks = vec![
        child(6, "six", 5),
        child(5, "five", 2),
        child(7, "seven", 5),
        child(2, "two", 1),
        Task::new(1, "one"),
    ];
    let trees = TaskTree::from_tasks(tasks).unwrap();
    assert_eq!(trees.len(), 1);
    let two = &trees[0].subtasks[0];
    assert_eq!(two.task.id, 2);
    let five = &two.subtasks[0];
    assert_eq!(five.task.id, 5);
    let ids: Vec<u64> = five.subtasks.iter().map(|t| t.task.id).collect();
    assert_eq!(ids, vec![7, 6]);
}

#[test]
fn roots_keep_the_order_of_the_batch() {
    let tasks = vec![
        Task::new(30, "c"),
        child(31, "c1", 30),
        Task::new(10, "a"),
        Task::new(20, "b"),
        child(11, "a1", 10),
    ];
    let trees = TaskTree::from_tasks(tasks).unwrap();
    let ids: Vec<u64> = trees.iter().map(|t| t.task.id).collect();
    assert_eq!(ids, vec![30, 10, 20]);
    assert_eq!(trees[0].subtasks[0].task.id, 31);
    assert_eq!(trees[1].subtasks[0].task.id, 11);
    assert!(trees[2].subtasks.is_empty());
}

#[test]
fn children_name_their_parent() {
    fn check(tree: &TaskTree) {
        for sub in tree.subtasks.iter() {
            assert_eq!(sub.task.parent_id, Some(tree.task.id));
            check(sub);
        }
    }
    let tasks = vec![
        child(4, "d", 2),
        child(2, "b", 1),
        Task::new(1, "a"),
        child(3, "c", 1),
        child(5, "e", 4),
    ];
    let trees = TaskTree::from_tasks(tasks).unwrap();
    for tree in trees.iter() {
        assert_eq!(tree.task.parent_id, None);
        check(tree);
    }
}

#[test]
fn every_task_appears_once() {
    fn collect(tree: &TaskTree, into: &mut Vec<u64>) {
        into.push(tree.task.id);
        for sub in tree.subtasks.iter() {
            collect(sub, into);
        }
    }
    let tasks = vec![
        child(4, "d", 2),
        child(2, "b", 1),
        Task::new(1, "a"),
        child(3, "c", 1),
        Task::new(9, "z"),
        child(5, "e", 4),
    ];
    let trees = TaskTree::from_tasks(tasks).unwrap();
    let mut ids = Vec::new();
    for tree in trees.iter() {
        collect(tree, &mut ids);
    }
    ids.sort();
    assert_eq!(ids, vec![1, 2, 3, 4, 5, 9]);
}

#[test]
fn same_batch_gives_the_same_forest() {
    fn shape(tree: &TaskTree) -> String {
        let subs: Vec<String> = tree.subtasks.iter().map(shape).collect();
        format!("{}({})", tree.task.id, subs.join(","))
    }
    let batch = || {
        vec![
            child(4, "d", 2),
            child(2, "b", 1),
            Task::new(1, "a"),
            child(3, "c", 1),
            child(5, "e", 4),
        ]
    };
    let first = TaskTree::from_tasks(batch()).unwrap();
    let second = TaskTree::from_tasks(batch()).unwrap();
    let a: Vec<String> = first.iter().map(shape).collect();
    let b: Vec<String> = second.iter().map(shape).collect();
    assert_eq!(a, b);
    assert_eq!(a, vec!["1(2(4(5())),3())".to_string()]);
}

#[test]
fn missing_parent_reports_the_whole_chain() {
    let tasks = vec![child(2, "two", 1), child(3, "three", 2)];
    match TaskTree::from_tasks(tasks) {
        Err(BuildError::UnresolvedParents { ids }) => assert_eq!(ids, vec![2, 3]),
        Ok(_) => panic!("a batch without a root for its tasks was accepted"),
    }
}

#[test]
fn two_broken_chains_are_both_reported() {
    let tasks = vec![
        child(21, "x", 20),
        Task::new(1, "root"),
        child(31, "y", 30),
        child(2, "fine", 1),
        child(22, "x", 21),
        child(32, "y", 31),
    ];
    let err = TaskTree::from_tasks(tasks).unwrap_err();
    assert_eq!(err.count(), 4);
    let BuildError::UnresolvedParents { ids } = err;
    assert_eq!(ids, vec![21, 31, 22, 32]);
}

#[test]
fn cycle_without_root_is_refused() {
    let tasks = vec![child(1, "a", 2), child(2, "b", 1), Task::new(7, "root")];
    let err = TaskTree::from_tasks(tasks).unwrap_err();
    assert_eq!(err.count(), 2);
}

#[test]
fn task_that_is_its_own_parent_is_refused() {
    let tasks = vec![child(5, "self", 5)];
    let err = TaskTree::from_tasks(tasks).unwrap_err();
    let BuildError::UnresolvedParents { ids } = err;
    assert_eq!(ids, vec![5]);
}

#[test]
fn payload_is_carried_through() {
    let mut task = child(2, "write report", 1);
    task.description = "quarterly".to_string();
    task.label_ids = vec![7, 8];
    task.order = -3;
    let created = task.created;
    let trees = TaskTree::from_tasks(vec![task, Task::new(1, "root")]).unwrap();
    let sub = &trees[0].subtasks[0].task;
    assert_eq!(sub.content, "write report");
    assert_eq!(sub.description, "quarterly");
    assert_eq!(sub.label_ids, vec![7, 8]);
    assert_eq!(sub.order, -3);
    assert_eq!(sub.created, created);
}
