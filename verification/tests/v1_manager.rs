use std::collections::HashSet;

use task_motel::v1::manager::TaskManager;

#[derive(Debug, Clone, Copy, Hash, PartialEq, Eq)]
enum GroupKey {
    A,
    B,
    C,
    D,
}

use GroupKey::{A, B, C, D};

type Tasks = Vec<&'static str>;

fn keys(removed: &[(GroupKey, Tasks)]) -> HashSet<GroupKey> {
    removed.iter().map(|(k, _)| *k).collect()
}

fn set(items: Vec<GroupKey>) -> HashSet<GroupKey> {
    items.into_iter().collect()
}

#[test]
fn v1_manager_test_group_nesting() {
    let mut tm: TaskManager<GroupKey, Tasks> = TaskManager::default();

    tm.add_group(A, None, Vec::new);
    tm.add_group(B, Some(A), Vec::new);
    tm.add_group(C, Some(B), Vec::new);
    tm.add_group(D, Some(B), Vec::new);

    tm.add_group(A, None, Vec::new).push("a1");
    tm.add_group(A, None, Vec::new).push("a2");
    tm.add_group(B, Some(A), Vec::new).push("b1");
    tm.add_group(C, Some(B), Vec::new).push("c1");
    tm.add_group(D, Some(B), Vec::new).push("d1");

    // D has nothing below it; it stays registered until its tasks end.
    let rem_d = tm.remove_group(&D).ok().unwrap();
    assert!(rem_d.is_empty());
    assert!(tm.is_stopping(&D));
    assert_eq!(tm.get(&D), Some(&vec!["d1"]));
    assert_eq!(tm.finish_group(&D), Some(vec!["d1"]));
    assert!(tm.get(&D).is_none());
    assert!(tm.get(&C).is_some());
    assert_eq!(tm.finish_group(&C), None);
    assert!(tm.get(&C).is_some());

    tm.add_group(D, Some(B), Vec::new).push("dx");
    assert_eq!(tm.get(&D), Some(&vec!["dx"]));
    assert!(!tm.is_stopping(&D));

    let rem_b = tm.remove_group(&B).ok().unwrap();
    assert!(tm.get(&A).is_some());
    assert_eq!(keys(&rem_b), set(vec![C, D]));
    assert!(tm.get(&B).is_some());
    assert!(tm.is_stopping(&B));
    assert!(tm.get(&C).is_none());
    assert!(tm.get(&D).is_none());
    assert_eq!(tm.finish_group(&B), Some(vec!["b1"]));
    assert!(tm.get(&B).is_none());
    assert!(!tm.is_empty());
}

#[derive(Debug, Clone, Copy, Hash, PartialEq, Eq)]
enum TreeKey {
    Root,
    Branch(u8),
    Leaf(u8, u8),
}

use TreeKey::{Branch, Leaf, Root};

#[test]
fn integration_integration() {
    let mut tm: TaskManager<TreeKey, Vec<&'static str>> = TaskManager::default();

    tm.add_group(Root, None, Vec::new);
    tm.add_group(Branch(1), Some(Root), Vec::new);
    tm.add_group(Branch(2), Some(Root), Vec::new);
    tm.add_group(Leaf(1, 1), Some(Branch(1)), Vec::new);
    tm.add_group(Leaf(1, 2), Some(Branch(1)), Vec::new);
    tm.add_group(Leaf(2, 1), Some(Branch(2)), Vec::new);
    tm.add_group(Leaf(2, 2), Some(Branch(2)), Vec::new);

    for (key, task) in [
        (Root, "root"),
        (Branch(1), "branch1"),
        (Branch(2), "branch2"),
        (Leaf(1, 1), "leaf11"),
        (Leaf(1, 2), "leaf12"),
        (Leaf(2, 1), "leaf21"),
        (Leaf(2, 2), "leaf22"),
    ] {
        assert!(tm.get(&key).is_some());
        tm.add_group(key, None, Vec::new).push(task);
    }

    let removed = tm.remove_group(&Root).ok().unwrap();
    assert_eq!(removed.len(), 6);

    let remaining: Vec<TreeKey> = [
        Root,
        Branch(1),
        Branch(2),
        Leaf(1, 1),
        Leaf(1, 2),
        Leaf(2, 1),
        Leaf(2, 2),
    ]
    .into_iter()
    .filter(|k| tm.get(k).is_some())
    .collect();
    assert_eq!(remaining, vec![Root]);

    assert_eq!(tm.finish_group(&Root), Some(vec!["root"]));
    assert!(tm.is_empty());
}

#[test]
fn v1_add_task_needs_the_group() {
    let mut tm: TaskManager<GroupKey, Tasks> = TaskManager::new();
    assert!(tm.get(&A).is_none());
    tm.add_group(A, None, Vec::new);
    assert!(tm.get(&A).is_some());
    assert!(!tm.is_empty());
}

#[test]
fn v1_remove_missing_group_fails() {
    let mut tm: TaskManager<GroupKey, Tasks> = TaskManager::new();
    match tm.remove_group(&A) {
        Err(missing) => {
            assert_eq!(missing.key, A);
            assert!(missing.removed.is_empty());
        }
        Ok(_) => panic!("removing a missing group succeeded"),
    }

    // C is named under B; once C is completely removed, removing B fails.
    tm.add_group(B, Some(A), Vec::new);
    tm.add_group(C, Some(B), Vec::new);
    assert!(tm.remove_group(&C).ok().unwrap().is_empty());
    assert!(tm.finish_group(&C).is_some());
    match tm.remove_group(&B) {
        Err(missing) => {
            assert_eq!(missing.key, C);
            assert!(missing.removed.is_empty());
        }
        Ok(_) => panic!("removing a group with a missing descendant succeeded"),
    }
    assert!(tm.get(&B).is_some());
    assert!(!tm.is_stopping(&B));
}

#[test]
fn v1_descendants() {
    let mut tm: TaskManager<GroupKey, Tasks> = TaskManager::new();
    tm.add_group(A, None, Vec::new);
    tm.add_group(B, Some(A), Vec::new);
    tm.add_group(C, Some(B), Vec::new);
    tm.add_group(D, Some(A), Vec::new);
    assert_eq!(tm.descendants(&A), set(vec![A, B, C, D]));
    assert_eq!(tm.descendants(&B), set(vec![B, C]));
    assert_eq!(tm.descendants(&D), set(vec![D]));
}
