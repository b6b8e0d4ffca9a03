use std::collections::HashSet;

use task_motel::TaskManager;

#[derive(Debug, Clone, Copy, Hash, PartialEq, Eq)]
enum GroupKey {
    Root,
    Branch(u8),
    Leaf(u8, u8),
}

use GroupKey::{Branch, Leaf, Root};

fn parent(g: &GroupKey) -> Option<GroupKey> {
    match g {
        Root => None,
        Branch(_) => Some(Root),
        Leaf(b, _) => Some(Branch(*b)),
    }
}

type Tasks = Vec<&'static str>;

fn num_tasks<P: Fn(&GroupKey) -> Option<GroupKey>>(
    tm: &TaskManager<GroupKey, Tasks, P>,
    key: &GroupKey,
) -> usize {
    tm.get(key).map(|tasks| tasks.len()).unwrap_or_default()
}

#[test]
fn integration() {
    let mut tm: TaskManager<GroupKey, Tasks, _> = TaskManager::new(parent);

    let branch = Branch(1);
    let leaf1 = Leaf(1, 1);
    let leaf2 = Leaf(2, 2);
    tm.group(Root, Vec::new).push("root");
    tm.group(branch, Vec::new).push("branch-1");
    tm.group(leaf1, Vec::new).push("leaf-1-1 a");
    tm.group(leaf1, Vec::new).push("leaf-1-1 b");
    tm.group(leaf2, Vec::new).push("leaf-2-2 a");

    assert_eq!(num_tasks(&tm, &branch), 1);
    assert_eq!(num_tasks(&tm, &leaf1), 2);
    assert_eq!(num_tasks(&tm, &leaf2), 1);

    let results = tm.stop_group(&branch);
    let stopped: HashSet<(GroupKey, &str)> = results
        .into_iter()
        .flat_map(|(k, tasks)| tasks.into_iter().map(move |t| (k, t)))
        .collect();
    let expected: HashSet<(GroupKey, &str)> = vec![
        (branch, "branch-1"),
        (leaf1, "leaf-1-1 a"),
        (leaf1, "leaf-1-1 b"),
    ]
    .into_iter()
    .collect();
    assert_eq!(stopped, expected);

    assert_eq!(num_tasks(&tm, &branch), 0);
    assert_eq!(num_tasks(&tm, &leaf1), 0);
    assert_eq!(num_tasks(&tm, &leaf2), 1);

    // Branch(2) was never given a task, but Leaf(2, 2) lies below the root
    // through it, so stopping the root stops it too.
    let rest = tm.stop_group(&Root);
    let keys: HashSet<GroupKey> = rest.iter().map(|(k, _)| *k).collect();
    assert_eq!(keys, vec![Root, leaf2].into_iter().collect::<HashSet<_>>());
    assert_eq!(num_tasks(&tm, &leaf2), 0);
    assert!(tm.stop_group(&Branch(2)).is_empty());
}
