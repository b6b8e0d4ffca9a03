# task_motel

A task manager that arranges tasks in nested groups. Each group key names one
group; a group is created when its first task is added. The parent map given
at construction names each group's parent, and so defines the tree: stopping a
group stops every group whose chain of parents leads to it, also through
parents that never held a task themselves.

## Layout

- `src/` is the verified library.
  - `tree.rs`: the parent/child relation between groups, what it means for a
    group to lie below another (`reaches`, `subtree`), and `collect_subtree`,
    the walk that gathers a group and all of its descendants, proved to return
    exactly that set and to terminate even where the parent map has cycles.
  - `lineage.rs`: the tree as the parent map defines it (`under`,
    `lineage_below`), and the proof that the registry's children map, whose
    links are exactly the parent links of the created groups and all their
    ancestors, finds exactly the groups whose lineage passes through a key.
  - `manager.rs`: `TaskManager`, the registry of live groups: get-or-create a
    group (registering its whole lineage), list descendants, stop a group and
    everything below it; `tally_tasks` for the task count; laws on stopping.
  - `v1/manager.rs`: the earlier registry, where groups are added explicitly
    with their parent. Removing a group removes the groups below it at once and
    fails if one of them does not exist; the group itself stays registered,
    marked as stopping, until `finish_group` removes it once its tasks ended.
  - `signal.rs`: `StopSignal`, the one-shot senders of a group's listeners,
    all completed by `emit`.
  - `error.rs`: `TmResult` and the `TaskError` trait.
- `app/` is the asynchronous side: tokio `JoinSet`s, stop listeners with their
  live count and wake-ups, the `Future`/`Stream` impls, and the task managers
  that spawn tasks into the groups kept by the verified registry.
- `tests/` exercise the library on concrete groups and signals.
