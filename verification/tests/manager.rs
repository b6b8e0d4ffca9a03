use std::collections::HashSet;

use rand::seq::SliceRandom;
use task_motel::manager::{tally_tasks, TaskManager};

#[derive(Debug, Clone, Copy, Hash, PartialEq, Eq)]
enum GroupKey {
    A,
    B,
    C,
    D,
    E,
    F,
    G,
}

use GroupKey::{A, B, C, D, E, F, G};

fn set<T: std::hash::Hash + Eq>(items: Vec<T>) -> HashSet<T> {
    items.into_iter().collect()
}

fn full_tree(g: &GroupKey) -> Option<GroupKey> {
    match g {
        A => None,
        B => Some(A),
        C => Some(B),
        D => Some(B),
        E => Some(D),
        F => Some(E),
        G => Some(C),
    }
}

type Tasks = Vec<String>;

fn add_task<P: Fn(&GroupKey) -> Option<GroupKey>>(
    tm: &mut TaskManager<GroupKey, Tasks, P>,
    key: GroupKey,
    name: &str,
) {
    tm.group(key, Vec::new).push(name.to_string());
}

fn outcomes(stopped: Vec<(GroupKey, Tasks)>) -> HashSet<(GroupKey, String)> {
    stopped
        .into_iter()
        .flat_map(|(k, tasks)| tasks.into_iter().map(move |t| (k, t)))
        .collect()
}

fn num_tasks<P: Fn(&GroupKey) -> Option<GroupKey>>(
    tm: &TaskManager<GroupKey, Tasks, P>,
    key: &GroupKey,
) -> usize {
    tm.get(key).map(|tasks| tasks.len()).unwrap_or_default()
}

#[test]
fn test_descendants() {
    let mut tm: TaskManager<GroupKey, Tasks, _> = TaskManager::new(full_tree);

    let mut keys = vec![A, B, C, D, E, F, G];
    keys.shuffle(&mut rand::thread_rng());

    // Set up the parent map in random order
    for key in keys.clone() {
        add_task(&mut tm, key, &format!("{:?}", key));
    }

    assert_eq!(tm.descendants(&A), set(vec![A, B, C, D, E, F, G]));
    assert_eq!(tm.descendants(&B), set(vec![B, C, D, E, F, G]));
    assert_eq!(tm.descendants(&C), set(vec![C, G]));
    assert_eq!(tm.descendants(&D), set(vec![D, E, F]));
    assert_eq!(tm.descendants(&E), set(vec![E, F]));
    assert_eq!(tm.descendants(&F), set(vec![F]));
    assert_eq!(tm.descendants(&G), set(vec![G]));

    let stopped = tm.stop_group(&A);
    assert_eq!(stopped.len(), keys.len());
    assert_eq!(
        outcomes(stopped),
        set(vec![
            (A, "A".to_string()),
            (B, "B".to_string()),
            (C, "C".to_string()),
            (D, "D".to_string()),
            (E, "E".to_string()),
            (F, "F".to_string()),
            (G, "G".to_string()),
        ])
    );
    for key in keys {
        assert!(tm.get(&key).is_none());
    }
}

#[test]
fn manager_test_group_nesting() {
    let mut tm: TaskManager<GroupKey, Tasks, _> = TaskManager::new(|g: &GroupKey| match g {
        A => None,
        B => Some(A),
        C => Some(B),
        D => Some(B),
        _ => None,
    });

    add_task(&mut tm, A, "a1");
    add_task(&mut tm, A, "a2");
    add_task(&mut tm, B, "b1");
    add_task(&mut tm, C, "c1");
    add_task(&mut tm, D, "d1");
    add_task(&mut tm, E, "e1");

    assert_eq!(num_tasks(&tm, &A), 2);
    assert_eq!(num_tasks(&tm, &B), 1);
    assert_eq!(num_tasks(&tm, &C), 1);
    assert_eq!(num_tasks(&tm, &D), 1);
    assert_eq!(num_tasks(&tm, &E), 1);

    let stopped = tm.stop_group(&D);
    assert_eq!(num_tasks(&tm, &D), 0);
    assert_eq!(outcomes(stopped), set(vec![(D, "d1".to_string())]));

    assert_eq!(num_tasks(&tm, &A), 2);
    assert_eq!(num_tasks(&tm, &B), 1);
    assert_eq!(num_tasks(&tm, &C), 1);
    assert_eq!(num_tasks(&tm, &D), 0);

    add_task(&mut tm, D, "dx");
    assert_eq!(num_tasks(&tm, &D), 1);

    let stopped = tm.stop_group(&B);
    assert_eq!(
        outcomes(stopped),
        set(vec![
            (B, "b1".to_string()),
            (C, "c1".to_string()),
            (D, "dx".to_string()),
        ])
    );

    assert_eq!(num_tasks(&tm, &A), 2);
    assert_eq!(num_tasks(&tm, &B), 0);
    assert_eq!(num_tasks(&tm, &C), 0);
    assert_eq!(num_tasks(&tm, &D), 0);

    add_task(&mut tm, D, "dy");
    assert_eq!(num_tasks(&tm, &D), 1);

    let stopped = tm.stop_group(&A);
    assert_eq!(
        outcomes(stopped),
        set(vec![
            (A, "a1".to_string()),
            (A, "a2".to_string()),
            (D, "dy".to_string()),
        ])
    );
    // E has no parent, so stopping A leaves it alone.
    assert_eq!(num_tasks(&tm, &E), 1);
}

#[test]
fn group_is_created_once_with_its_lineage() {
    let asked = std::cell::Cell::new(0);
    let mut tm: TaskManager<GroupKey, Tasks, _> = TaskManager::new(|g: &GroupKey| {
        asked.set(asked.get() + 1);
        full_tree(g)
    });
    add_task(&mut tm, C, "c1");
    // C, then its parent B, then B's parent A, which has none.
    assert_eq!(asked.get(), 3);
    add_task(&mut tm, C, "c2");
    assert_eq!(asked.get(), 3);
    assert_eq!(tm.get(&C), Some(&vec!["c1".to_string(), "c2".to_string()]));
    // B and A were never made groups, but C is registered below both.
    assert!(tm.get(&B).is_none());
    assert_eq!(tm.descendants(&B), set(vec![B, C]));
    assert_eq!(tm.descendants(&A), set(vec![A, B, C]));
    // G's lineage joins C's: the walk stops at C, whose link is known.
    add_task(&mut tm, G, "g1");
    assert_eq!(asked.get(), 5);
    assert_eq!(tm.descendants(&A), set(vec![A, B, C, G]));
}

#[test]
fn stopping_reaches_through_unused_parents() {
    let mut tm: TaskManager<GroupKey, Tasks, _> = TaskManager::new(full_tree);
    add_task(&mut tm, A, "a1");
    add_task(&mut tm, G, "g1");
    add_task(&mut tm, F, "f1");
    // B, C, D and E were never used, but G and F lie below B through them.
    assert_eq!(tm.descendants(&B), set(vec![B, C, D, E, F, G]));
    let stopped = tm.stop_group(&B);
    assert_eq!(
        outcomes(stopped),
        set(vec![(G, "g1".to_string()), (F, "f1".to_string())])
    );
    assert!(tm.stop_group(&B).is_empty());
    assert!(tm.stop_group(&G).is_empty());
    assert_eq!(num_tasks(&tm, &A), 1);
}

#[test]
fn stopping_the_root_stops_a_grandchild_under_an_unused_parent() {
    let mut tm: TaskManager<GroupKey, Tasks, _> = TaskManager::new(|g: &GroupKey| match g {
        A => None,
        B => Some(A),
        C => Some(B),
        _ => None,
    });
    add_task(&mut tm, A, "a");
    add_task(&mut tm, C, "c");
    let stopped = tm.stop_group(&A);
    assert_eq!(
        outcomes(stopped),
        set(vec![(A, "a".to_string()), (C, "c".to_string())])
    );
    assert_eq!(num_tasks(&tm, &C), 0);
}

#[test]
fn stopping_unrelated_group_keeps_others() {
    let mut tm: TaskManager<GroupKey, Tasks, _> = TaskManager::new(full_tree);
    add_task(&mut tm, C, "c1");
    add_task(&mut tm, D, "d1");
    let stopped = tm.stop_group(&C);
    assert_eq!(outcomes(stopped), set(vec![(C, "c1".to_string())]));
    assert_eq!(num_tasks(&tm, &D), 1);
    assert_eq!(tm.descendants(&B), set(vec![B, C, D]));
    assert_eq!(tm.descendants(&D), set(vec![D]));
}

#[test]
fn tally_sums_current_and_stopping() {
    assert_eq!(tally_tasks(0, &vec![]), Some(0));
    assert_eq!(tally_tasks(2, &vec![1, 0, 3]), Some(6));
    assert_eq!(tally_tasks(1, &vec![u32::MAX]), Some(1 + u32::MAX as usize));
    assert_eq!(tally_tasks(0, &vec![u32::MAX, 1]), None);
    assert_eq!(tally_tasks(usize::MAX, &vec![1]), None);
    assert_eq!(tally_tasks(usize::MAX, &vec![0]), Some(usize::MAX));
}

#[test]
fn stops_commute() {
    let remaining = |tm: &TaskManager<GroupKey, Tasks, fn(&GroupKey) -> Option<GroupKey>>| {
        [A, B, C, D, E, F, G]
            .into_iter()
            .filter(|k| tm.get(k).is_some())
            .collect::<HashSet<_>>()
    };
    let mut one: TaskManager<GroupKey, Tasks, fn(&GroupKey) -> Option<GroupKey>> =
        TaskManager::new(full_tree);
    let mut two: TaskManager<GroupKey, Tasks, fn(&GroupKey) -> Option<GroupKey>> =
        TaskManager::new(full_tree);
    for key in [A, B, C, D, E, F, G] {
        add_task(&mut one, key, "t");
        add_task(&mut two, key, "t");
    }
    one.stop_group(&C);
    one.stop_group(&D);
    two.stop_group(&D);
    two.stop_group(&C);
    assert_eq!(remaining(&one), remaining(&two));
    assert_eq!(remaining(&one), set(vec![A, B]));
}
