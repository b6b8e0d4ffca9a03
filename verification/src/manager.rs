//! The registry of task groups arranged in nested groups.
//!
//! Groups are created on first use. When a group is created, the parent map
//! is asked for its parent, that parent's parent and so on, and each is
//! recorded as a child of the next, so the registry knows the tree the parent
//! map defines above every group it holds, also through parents that never
//! held a task. Stopping a group removes every group whose lineage passes
//! through it, and hands the removed groups back so that their tasks can be
//! signalled and awaited.

use std::collections::hash_map::Entry;
use std::collections::{HashMap, HashSet};
use std::hash::Hash;
use vstd::prelude::*;
use vstd::std_specs::hash::spec_hash_keys_iter;
use vstd::std_specs::iter::IteratorSpec;

use crate::lineage::{
    known, known_below, lemma_exact_is_sound_and_complete, lemma_exact_links_fix_the_tree,
    lemma_sound_and_complete_is_exact, lemma_subtree_is_lineage, lemma_under_self,
    lemma_under_transitive, lemma_upward_step, lineage_below, links_complete, links_exact,
    links_sound, no_empty_sets, parent_link, ranked_by, tree_shaped, under, upward,
};
use crate::tree::{adopt, collect_subtree, finite_tree, is_child, key_model, subtree, tree_of};

verus! {

/// The keys of a list of (key, group) pairs, in order.
pub open spec fn keys_of<K, G>(entries: Seq<(K, G)>) -> Seq<K> {
    entries.map_values(|e: (K, G)| e.0)
}

/// The groups left after stopping `key`: every group whose lineage passes
/// through `key` is gone.
pub open spec fn after_stop<K, G, P: Fn(&K) -> Option<K>>(groups: Map<K, G>, pm: P, key: K) -> Map<
    K,
    G,
> {
    groups.remove_keys(lineage_below(pm, key))
}

/// The sum of a list of task counts.
pub open spec fn total(counts: Seq<u32>) -> nat
    decreases counts.len(),
{
    if counts.len() == 0 {
        0
    } else {
        total(counts.drop_last()) + (counts.last() as nat)
    }
}

/// Adding one more count to the list adds exactly that count to the sum.
pub proof fn lemma_total_push(counts: Seq<u32>, c: u32)
    ensures
        total(counts.push(c)) == total(counts) + c,
{
    assert(counts.push(c).drop_last() =~= counts);
}

/// The empty list sums to zero, and a single count to itself.
pub proof fn lemma_total_single(c: u32)
    ensures
        total(Seq::<u32>::empty()) == 0,
        total(seq![c]) == c,
{
    assert(seq![c].drop_last() =~= Seq::<u32>::empty());
}

/// The sum of two lists put end to end is the sum of their sums.
pub proof fn lemma_total_concat(a: Seq<u32>, b: Seq<u32>)
    ensures
        total(a + b) == total(a) + total(b),
    decreases b.len(),
{
    if b.len() > 0 {
        let shorter = b.drop_last();
        lemma_total_concat(a, shorter);
        assert((a + b).drop_last() =~= a + shorter);
        assert((a + b).last() == b.last());
    } else {
        assert(a + b =~= a);
    }
}

/// The sum is the left fold of `+` from zero over the counts.
pub proof fn lemma_total_is_fold(counts: Seq<u32>)
    ensures
        total(counts) == counts.fold_left(0nat, |acc: nat, c: u32| acc + (c as nat)),
    decreases counts.len(),
{
    if counts.len() > 0 {
        lemma_total_is_fold(counts.drop_last());
    }
}

/// Each count is at most the sum, so no stopping group's tasks are left out.
pub proof fn lemma_total_bounds_each(counts: Seq<u32>, i: int)
    requires
        0 <= i < counts.len(),
    ensures
        counts[i] <= total(counts),
    decreases counts.len(),
{
    if i < counts.len() - 1 {
        lemma_total_bounds_each(counts.drop_last(), i);
    }
}

/// A sum over a prefix is at most the sum over the whole list.
proof fn lemma_total_prefix(counts: Seq<u32>, n: int)
    requires
        0 <= n <= counts.len(),
    ensures
        total(counts.take(n)) <= total(counts),
    decreases counts.len() - n,
{
    if n < counts.len() {
        lemma_total_prefix(counts, n + 1);
        assert(counts.take(n + 1).drop_last() =~= counts.take(n));
    } else {
        assert(counts.take(n) =~= counts);
    }
}

/// The tasks counted for a group: the `current` tasks of its live group plus
/// the tasks still running in each group being stopped (`stopping`). The
/// stopping tasks are summed as a `u32` and the whole as a `usize`; `None`
/// when either sum overflows.
pub fn tally_tasks(current: usize, stopping: &Vec<u32>) -> (n: Option<usize>)
    ensures
        n is Some <==> total(stopping@) <= u32::MAX && current + total(stopping@) <= usize::MAX,
        n matches Some(n) ==> n == current + total(stopping@),
{
    let mut pending: u32 = 0;
    let mut i: usize = 0;
    while i < stopping.len()
        invariant
            i <= stopping@.len(),
            pending == total(stopping@.take(i as int)),
        decreases stopping@.len() - i,
    {
        assert(stopping@.take(i + 1).drop_last() =~= stopping@.take(i as int));
        match pending.checked_add(stopping[i]) {
            Some(sum) => {
                pending = sum;
            },
            None => {
                proof {
                    lemma_total_prefix(stopping@, i + 1);
                }
                return None;
            },
        }
        i = i + 1;
    }
    assert(stopping@.take(i as int) =~= stopping@);
    current.checked_add(pending as usize)
}

/// Stopping a group removes that group and every group whose lineage passes
/// through it, and keeps every other group as it was.
pub proof fn lemma_stop_takes_exactly_the_lineage<K, G, P: Fn(&K) -> Option<K>>(
    groups: Map<K, G>,
    pm: P,
    key: K,
    other: K,
)
    ensures
        !after_stop(groups, pm, key).contains_key(key),
        under(pm, other, key) ==> !after_stop(groups, pm, key).contains_key(other),
        !under(pm, other, key) ==> {
            &&& after_stop(groups, pm, key).contains_key(other) == groups.contains_key(other)
            &&& groups.contains_key(other) ==> after_stop(groups, pm, key)[other] == groups[other]
        },
{
    lemma_under_self(pm, key);
}

/// Once a group has been stopped, stopping it again or stopping any group
/// below it changes nothing.
pub proof fn lemma_stop_below_stopped_is_noop<K, G, P: Fn(&K) -> Option<K>>(
    groups: Map<K, G>,
    pm: P,
    key: K,
    below: K,
)
    requires
        under(pm, below, key),
    ensures
        after_stop(after_stop(groups, pm, key), pm, below) == after_stop(groups, pm, key),
{
    assert forall|g: K|
        lineage_below(pm, below).contains(g) implies lineage_below(pm, key).contains(g) by {
        lemma_under_transitive(pm, g, below, key);
    }
    assert(after_stop(after_stop(groups, pm, key), pm, below) =~= after_stop(groups, pm, key));
}

/// Stopping a group under which no group lies changes nothing.
pub proof fn lemma_stop_with_nothing_below_is_noop<K, G, P: Fn(&K) -> Option<K>>(
    groups: Map<K, G>,
    pm: P,
    key: K,
)
    requires
        forall|g: K| #[trigger] groups.contains_key(g) ==> !under(pm, g, key),
    ensures
        after_stop(groups, pm, key) == groups,
{
    assert(after_stop(groups, pm, key) =~= groups);
}

/// Stopping two groups leaves the same groups in either order.
pub proof fn lemma_stops_commute<K, G, P: Fn(&K) -> Option<K>>(
    groups: Map<K, G>,
    pm: P,
    a: K,
    b: K,
)
    ensures
        after_stop(after_stop(groups, pm, a), pm, b) == after_stop(
            after_stop(groups, pm, b),
            pm,
            a,
        ),
{
    assert(after_stop(after_stop(groups, pm, a), pm, b) =~= after_stop(
        after_stop(groups, pm, b),
        pm,
        a,
    ));
}

/// Registry of live task groups, keyed by `K`, each holding a `G`, with the
/// nesting given by the parent map `P`.
#[verifier::reject_recursive_types(K)]
pub struct TaskManager<K, G, P> {
    groups: HashMap<K, G>,
    children: HashMap<K, HashSet<K>>,
    parent_map: P,
    created: Ghost<Set<K>>,
}

impl<K: Clone + Eq + Hash, G, P: Fn(&K) -> Option<K>> TaskManager<K, G, P> {
    /// The live groups.
    pub closed spec fn groups(&self) -> Map<K, G> {
        self.groups@
    }

    /// Every parent registered so far, with the children registered under it.
    pub closed spec fn tree(&self) -> Map<K, Set<K>> {
        tree_of(self.children@)
    }

    /// The function that names the parent of a group.
    pub closed spec fn parent_map(&self) -> P {
        self.parent_map
    }

    /// Every key that has been made a group so far.
    pub closed spec fn created(&self) -> Set<K> {
        self.created@
    }

    /// The registry's invariant: a finite tree whose links are exactly the
    /// parent links of the created groups and their ancestors, under a parent
    /// map that describes a tree; live groups were all created.
    pub closed spec fn wf(&self) -> bool {
        &&& finite_tree(self.tree())
        &&& tree_shaped(self.parent_map)
        &&& self.groups@.dom().subset_of(self.created@)
        &&& links_exact(self.tree(), self.parent_map, self.created@)
        &&& no_empty_sets(self.tree())
    }

    /// An empty registry whose nesting is given by `parent_map`.
    pub fn new(parent_map: P) -> (tm: Self)
        requires
            tree_shaped(parent_map),
        ensures
            tm.wf(),
            tm.groups() == Map::<K, G>::empty(),
            tm.tree() == Map::<K, Set<K>>::empty(),
            tm.created() == Set::<K>::empty(),
            tm.parent_map() == parent_map,
    {
        let tm = TaskManager {
            groups: HashMap::new(),
            children: HashMap::new(),
            parent_map,
            created: Ghost(Set::empty()),
        };
        assert(tm.tree() =~= Map::<K, Set<K>>::empty());
        assert(upward(parent_map, Set::<K>::empty()) =~= Set::<K>::empty());
        tm
    }

    /// Whether `child` is recorded under `parent`.
    fn has_child(&self, parent: &K, child: &K) -> (linked: bool)
        requires
            key_model::<K>(),
        ensures
            linked == is_child(self.tree(), *parent, *child),
    {
        match self.children.get(parent) {
            Some(kids) => kids.contains(child),
            None => false,
        }
    }

    /// Records `child` among the children of `parent`.
    fn add_child(&mut self, parent: K, child: K)
        requires
            finite_tree(old(self).tree()),
            key_model::<K>(),
        ensures
            finite_tree(final(self).tree()),
            final(self).groups == old(self).groups,
            final(self).parent_map == old(self).parent_map,
            final(self).created == old(self).created,
            final(self).tree() == adopt(old(self).tree(), child, Some(parent)),
    {
        let ghost old_tree = self.tree();
        let mut kids = match self.children.remove(&parent) {
            Some(kids) => {
                assert(old_tree.contains_key(parent) && old_tree[parent] == kids@);
                kids
            },
            None => HashSet::new(),
        };
        assert(kids@.finite());
        kids.insert(child);
        self.children.insert(parent, kids);
        assert(self.tree() =~= adopt(old_tree, child, Some(parent)));
        assert(self.tree().dom() =~= old_tree.dom().insert(parent));
    }

    /// Records `key` as created, and links it and each of its ancestors to
    /// its parent, walking up until a link is already there or a group has no
    /// parent.
    fn register_lineage(&mut self, key: K)
        requires
            old(self).wf(),
            key_model::<K>(),
        ensures
            final(self).wf(),
            final(self).groups() == old(self).groups(),
            final(self).parent_map() == old(self).parent_map(),
            final(self).created() == old(self).created().insert(key),
    {
        let ghost pm = self.parent_map;
        let ghost rank = choose|rank: spec_fn(K) -> nat| ranked_by(pm, rank);
        let ghost old_created = self.created@;
        proof {
            lemma_exact_is_sound_and_complete(self.tree(), pm, old_created);
            lemma_under_self(pm, key);
            assert forall|p: K, c: K| #[trigger] is_child(self.tree(), p, c) implies parent_link(
                pm,
                c,
                p,
            ) && upward(pm, old_created.insert(key)).contains(c) by {
                let g = choose|g: K| old_created.contains(g) && #[trigger] under(pm, g, c);
                assert(old_created.insert(key).contains(g));
            }
        }
        self.created = Ghost(self.created@.insert(key));
        assert(upward(pm, self.created@).contains(key));
        let mut cur = key;
        let mut done = false;
        while !done
            invariant
                key_model::<K>(),
                self.parent_map == pm,
                tree_shaped(pm),
                ranked_by(pm, rank),
                self.groups@ == old(self).groups@,
                self.created@ == old_created.insert(key),
                old(self).groups@.dom().subset_of(old_created),
                finite_tree(self.tree()),
                no_empty_sets(self.tree()),
                links_sound(self.tree(), pm, self.created@),
                forall|n: K, p: K|
                    known(self.tree(), self.created@, n) && n != cur && #[trigger] parent_link(
                        pm,
                        n,
                        p,
                    ) ==> is_child(self.tree(), p, n),
                done ==> links_complete(self.tree(), pm, self.created@),
                known(self.tree(), self.created@, cur),
                upward(pm, self.created@).contains(cur),
            decreases (if done {
                0
            } else {
                rank(cur) + 1
            }),
        {
            let answer = (self.parent_map)(&cur);
            match answer {
                None => {
                    done = true;
                },
                Some(p) => {
                    if self.has_child(&p, &cur) {
                        done = true;
                    } else {
                        let ghost before = self.tree();
                        let ghost child = cur;
                        assert(parent_link(pm, child, p));
                        proof {
                            lemma_upward_step(pm, self.created@, child, p);
                        }
                        self.add_child(p.clone(), cur);
                        cur = p;
                        proof {
                            let after = self.tree();
                            assert forall|a: K, b: K|
                                #[trigger] is_child(after, a, b) <==> (is_child(before, a, b) || (
                                a == cur && b == child)) by {}
                            assert(is_child(after, cur, child));
                            assert forall|a: K, b: K| #[trigger]
                                is_child(after, a, b) implies parent_link(pm, b, a) && upward(
                                pm,
                                self.created@,
                            ).contains(b) by {
                                if !(a == cur && b == child) {
                                    assert(is_child(before, a, b));
                                }
                            }
                            assert forall|q: K|
                                #[trigger] after.contains_key(q) implies exists|c: K|
                                    is_child(after, q, c) by {
                                if q == cur {
                                    assert(is_child(after, q, child));
                                } else {
                                    assert(before.contains_key(q));
                                    let c = choose|c: K| is_child(before, q, c);
                                    assert(is_child(after, q, c));
                                }
                            }
                            assert forall|n: K, q: K|
                                known(after, self.created@, n) && n != cur
                                    && #[trigger] parent_link(pm, n, q) implies is_child(
                                    after,
                                    q,
                                    n,
                                ) by {
                                if n == child {
                                    assert(call_ensures(pm, (&child,), Some(q)));
                                    assert(call_ensures(pm, (&child,), Some(cur)));
                                } else {
                                    assert(known(before, self.created@, n));
                                    assert(is_child(before, q, n));
                                }
                            }
                            assert(rank(cur) < rank(child));
                        }
                    }
                },
            }
            proof {
                if done {
                    assert forall|n: K, q: K|
                        known(self.tree(), self.created@, n) && #[trigger] parent_link(
                            pm,
                            n,
                            q,
                        ) implies is_child(self.tree(), q, n) by {
                        if n == cur {
                            assert(call_ensures(pm, (&cur,), answer));
                            assert(call_ensures(pm, (&cur,), Some(q)));
                        }
                    }
                }
            }
        }
        proof {
            lemma_sound_and_complete_is_exact(self.tree(), pm, self.created@);
        }
    }

    /// The group for `key`, created with `make` if it does not exist yet; a
    /// new group is registered with its whole lineage.
    pub fn group<F: FnOnce() -> G>(&mut self, key: K, make: F) -> (group: &mut G)
        requires
            old(self).wf(),
            key_model::<K>(),
            call_requires(make, ()),
        ensures
            final(self).wf(),
            final(self).parent_map() == old(self).parent_map(),
            final(self).groups() == old(self).groups().insert(key, *final(group)),
            links_exact(final(self).tree(), final(self).parent_map(), final(self).created()),
            old(self).groups().contains_key(key) ==> {
                &&& *group == old(self).groups()[key]
                &&& final(self).tree() == old(self).tree()
                &&& final(self).created() == old(self).created()
            },
            !old(self).groups().contains_key(key) ==> {
                &&& call_ensures(make, (), *group)
                &&& final(self).created() == old(self).created().insert(key)
            },
    {
        if !self.groups.contains_key(&key) {
            self.register_lineage(key.clone());
        }
        match self.groups.entry(key) {
            Entry::Occupied(entry) => entry.into_mut(),
            Entry::Vacant(entry) => entry.insert(make()),
        }
    }

    /// The group for `key`, if it exists.
    pub fn get(&self, key: &K) -> (group: Option<&G>)
        requires
            key_model::<K>(),
        ensures
            match group {
                Some(g) => self.groups().contains_key(*key) && *g == self.groups()[*key],
                None => !self.groups().contains_key(*key),
            },
    {
        self.groups.get(key)
    }

    /// `key` together with every registered group whose lineage passes
    /// through it: each created group below it, and each ancestor of a
    /// created group that lies below it.
    pub fn descendants(&self, key: &K) -> (all: HashSet<K>)
        requires
            self.wf(),
            key_model::<K>(),
        ensures
            all@ == subtree(self.tree(), *key),
            all@ == known_below(self.parent_map(), self.created(), *key),
            forall|g: K|
                #[trigger] self.groups().contains_key(g) ==> (all@.contains(g) <==> under(
                    self.parent_map(),
                    g,
                    *key,
                )),
    {
        let all = collect_subtree(&self.children, key);
        proof {
            self.lemma_subtree_below(*key);
        }
        all
    }

    /// The subtree of `key` holds exactly the lineage below `key` among the
    /// created groups and their ancestors.
    proof fn lemma_subtree_below(&self, key: K)
        requires
            self.wf(),
        ensures
            subtree(self.tree(), key) == known_below(self.parent_map, self.created@, key),
            forall|g: K|
                #[trigger] self.created@.contains(g) ==> (subtree(self.tree(), key).contains(g)
                    <==> under(self.parent_map, g, key)),
    {
        lemma_subtree_is_lineage(self.tree(), self.parent_map, self.created@, key);
        assert forall|g: K| #[trigger] self.created@.contains(g) implies (subtree(
            self.tree(),
            key,
        ).contains(g) <==> under(self.parent_map, g, key)) by {
            lemma_under_self(self.parent_map, g);
            assert(upward(self.parent_map, self.created@).contains(g));
        }
    }

    /// Removes every group whose lineage passes through `key`, `key`
    /// included, returning the removed groups with their keys, each once.
    pub fn stop_group(&mut self, key: &K) -> (stopped: Vec<(K, G)>)
        requires
            old(self).wf(),
            key_model::<K>(),
        ensures
            final(self).wf(),
            final(self).tree() == old(self).tree(),
            final(self).created() == old(self).created(),
            final(self).parent_map() == old(self).parent_map(),
            final(self).groups() == after_stop(old(self).groups(), old(self).parent_map(), *key),
            keys_of(stopped@).no_duplicates(),
            keys_of(stopped@).to_set() == lineage_below(old(self).parent_map(), *key).intersect(
                old(self).groups().dom(),
            ),
            forall|i: int|
                0 <= i < stopped@.len() ==> old(self).groups()[#[trigger] stopped@[i].0]
                    == stopped@[i].1,
    {
        let ghost old_groups = self.groups@;
        proof {
            self.lemma_subtree_below(*key);
        }
        let doomed = self.descendants(key);
        let ghost seen = spec_hash_keys_iter(&doomed).remaining().unref();
        let mut stopped: Vec<(K, G)> = Vec::new();
        for k in it: doomed.iter()
            invariant
                key_model::<K>(),
                self.children@ == old(self).children@,
                self.parent_map == old(self).parent_map,
                self.created == old(self).created,
                old_groups == old(self).groups@,
                it.seq().unref() == seen,
                seen.no_duplicates(),
                seen.to_set() == doomed@,
                self.groups@ == old_groups.remove_keys(seen.take(it.index()).to_set()),
                keys_of(stopped@).no_duplicates(),
                keys_of(stopped@).to_set() == seen.take(it.index()).to_set().intersect(
                    old_groups.dom(),
                ),
                forall|i: int|
                    0 <= i < stopped@.len() ==> old_groups.contains_key(#[trigger] stopped@[i].0)
                        && old_groups[stopped@[i].0] == stopped@[i].1,
        {
            let ghost idx: int = it.index();
            let ghost before = stopped@;
            assert(seen[idx] == *k);
            assert(seen.take(idx + 1).to_set() =~= seen.take(idx).to_set().insert(*k)) by {
                assert(seen.take(idx + 1) =~= seen.take(idx).push(*k));
                seen.take(idx).lemma_push_to_set_commute(*k);
            }
            assert(!seen.take(idx).contains(*k)) by {
                if seen.take(idx).contains(*k) {
                    let j = choose|j: int| 0 <= j < idx && seen.take(idx)[j] == *k;
                    assert(seen[j] == seen[idx]);
                }
            }
            match self.groups.remove(k) {
                Some(g) => {
                    stopped.push((k.clone(), g));
                    assert(keys_of(stopped@) =~= keys_of(before).push(*k));
                    proof {
                        keys_of(before).lemma_push_to_set_commute(*k);
                    }
                    assert(old_groups.contains_key(*k));
                    assert(!keys_of(before).contains(*k)) by {
                        assert(!keys_of(before).to_set().contains(*k));
                    }
                },
                None => {
                    assert(!old_groups.contains_key(*k));
                },
            }
            assert(self.groups@ =~= old_groups.remove_keys(seen.take(idx + 1).to_set()));
            assert(keys_of(stopped@).to_set() =~= seen.take(idx + 1).to_set().intersect(
                old_groups.dom(),
            ));
        }
        assert(seen.take(seen.len() as int) =~= seen);
        proof {
            let pm = self.parent_map;
            assert forall|g: K| old_groups.contains_key(g) implies (doomed@.contains(g) <==> under(
                pm,
                g,
                *key,
            )) by {
                assert(self.created@.contains(g));
            }
            assert(self.groups@ =~= after_stop(old_groups, pm, *key));
            assert(keys_of(stopped@).to_set() =~= lineage_below(pm, *key).intersect(
                old_groups.dom(),
            ));
        }
        stopped
    }

    /// Two registries with the same parent map in which the same keys have
    /// been made groups, in whatever order, hold the same tree.
    pub proof fn lemma_same_created_same_tree(a: &Self, b: &Self)
        requires
            a.wf(),
            b.wf(),
            a.parent_map() == b.parent_map(),
            a.created() == b.created(),
        ensures
            a.tree() == b.tree(),
    {
        lemma_exact_links_fix_the_tree(a.tree(), b.tree(), a.parent_map, a.created@);
    }
}

} // verus!
