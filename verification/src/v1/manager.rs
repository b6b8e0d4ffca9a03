//! The first registry of nested task groups, in which groups are added
//! explicitly, with their parent, before tasks are put into them.
//!
//! Removing a group removes all of its descendant groups at once, and every
//! one of them must exist. The group itself stays registered, marked as
//! stopping, until its tasks have ended; only then is it completely removed.

use std::collections::hash_map::Entry;
use std::collections::{HashMap, HashSet};
use std::hash::Hash;
use vstd::prelude::*;
use vstd::std_specs::hash::spec_hash_keys_iter;
use vstd::std_specs::iter::IteratorSpec;

use crate::manager::keys_of;
use crate::tree::{
    adopt, collect_subtree, finite_tree, is_child, key_model, lemma_adopt_adds_exactly_one_link,
    lemma_reaches_self, subtree, tree_of,
};

verus! {

/// A removal that met a group that does not exist: `key` names it, and
/// `removed` holds the groups that had already been removed.
pub struct MissingGroup<K, G> {
    pub key: K,
    pub removed: Vec<(K, G)>,
}

/// Registry of task groups keyed by `K`, each holding a `G`, with the nesting
/// given when each group is added.
pub struct TaskManager<K, G> {
    groups: HashMap<K, G>,
    children: HashMap<K, HashSet<K>>,
    stopping: HashSet<K>,
}

impl<K: Clone + Eq + Hash, G> TaskManager<K, G> {
    /// The groups that exist.
    pub closed spec fn groups(&self) -> Map<K, G> {
        self.groups@
    }

    /// Every parent named so far, with the children named under it.
    pub closed spec fn tree(&self) -> Map<K, Set<K>> {
        tree_of(self.children@)
    }

    /// The groups that have been removed and wait for their tasks to end.
    pub closed spec fn stopping(&self) -> Set<K> {
        self.stopping@
    }

    /// The registry's invariant: a finite tree.
    pub closed spec fn wf(&self) -> bool {
        finite_tree(self.tree())
    }

    /// An empty registry.
    pub fn new() -> (tm: Self)
        ensures
            tm.wf(),
            tm.groups() == Map::<K, G>::empty(),
            tm.tree() == Map::<K, Set<K>>::empty(),
            tm.stopping() == Set::<K>::empty(),
    {
        let tm = TaskManager {
            groups: HashMap::new(),
            children: HashMap::new(),
            stopping: HashSet::new(),
        };
        assert(tm.tree() =~= Map::<K, Set<K>>::empty());
        tm
    }

    /// Adds the group `key`, created with `make` unless it exists already, and
    /// records it among the children of `parent`, if one is given.
    pub fn add_group<F: FnOnce() -> G>(&mut self, key: K, parent: Option<K>, make: F) -> (group:
        &mut G)
        requires
            old(self).wf(),
            key_model::<K>(),
            call_requires(make, ()),
        ensures
            final(self).wf(),
            final(self).tree() == adopt(old(self).tree(), key, parent),
            forall|a: K, b: K|
                #[trigger] is_child(final(self).tree(), a, b) <==> (is_child(old(self).tree(), a, b)
                    || (parent == Some(a) && b == key)),
            parent is None ==> final(self).tree() == old(self).tree(),
            final(self).stopping() == old(self).stopping(),
            final(self).groups() == old(self).groups().insert(key, *final(group)),
            old(self).groups().contains_key(key) ==> *group == old(self).groups()[key],
            !old(self).groups().contains_key(key) ==> call_ensures(make, (), *group),
    {
        let ghost old_tree = self.tree();
        match parent {
            Some(p) => {
                let mut kids = match self.children.remove(&p) {
                    Some(kids) => {
                        assert(old_tree.contains_key(p) && old_tree[p] == kids@);
                        kids
                    },
                    None => HashSet::new(),
                };
                assert(kids@.finite());
                kids.insert(key.clone());
                self.children.insert(p, kids);
                assert(self.tree() =~= adopt(old_tree, key, parent));
                assert(self.tree().dom() =~= old_tree.dom().insert(p));
            },
            None => {},
        }
        proof {
            lemma_adopt_adds_exactly_one_link(old_tree, key, parent);
        }
        match self.groups.entry(key) {
            Entry::Occupied(entry) => entry.into_mut(),
            Entry::Vacant(entry) => entry.insert(make()),
        }
    }

    /// The group `key`, if it exists.
    pub fn get(&self, key: &K) -> (group: Option<&G>)
        requires
            key_model::<K>(),
        ensures
            match group {
                Some(g) => self.groups().contains_key(*key) && *g == self.groups()[*key],
                None => !self.groups().contains_key(*key),
            },
    {
        self.groups.get(key)
    }

    /// Whether no group exists.
    pub fn is_empty(&self) -> (empty: bool)
        ensures
            empty == self.groups().is_empty(),
    {
        self.groups.is_empty()
    }

    /// The groups themselves, to be polled in place.
    pub fn groups_mut(&mut self) -> (groups: &mut HashMap<K, G>)
        requires
            old(self).wf(),
        ensures
            final(self).wf(),
            (*groups)@ == old(self).groups(),
            final(self).tree() == old(self).tree(),
            final(self).stopping() == old(self).stopping(),
            final(self).groups() == (*final(groups))@,
    {
        &mut self.groups
    }

    /// `key` together with every group named below it.
    pub fn descendants(&self, key: &K) -> (all: HashSet<K>)
        requires
            self.wf(),
            key_model::<K>(),
        ensures
            all@ == subtree(self.tree(), *key),
    {
        collect_subtree(&self.children, key)
    }

    /// Removes every group below `key` at once, returning them with
    /// their keys, each once, and marks `key` itself as stopping: it stays
    /// registered until `finish_group` removes it once its tasks have ended.
    /// It fails if `key` or one of the groups below it does not exist; the
    /// groups removed before that one was met stay removed and come back with
    /// the error, and `key` is then not marked.
    pub fn remove_group(&mut self, key: &K) -> (result: Result<Vec<(K, G)>, MissingGroup<K, G>>)
        requires
            old(self).wf(),
            key_model::<K>(),
        ensures
            final(self).wf(),
            final(self).tree() == old(self).tree(),
            result is Ok <==> subtree(old(self).tree(), *key).subset_of(old(self).groups().dom()),
            match result {
                Ok(removed) => {
                    &&& final(self).groups() == old(self).groups().remove_keys(
                        subtree(old(self).tree(), *key).remove(*key),
                    )
                    &&& final(self).stopping() == old(self).stopping().difference(
                        subtree(old(self).tree(), *key),
                    ).insert(*key)
                    &&& keys_of(removed@).no_duplicates()
                    &&& keys_of(removed@).to_set() == subtree(old(self).tree(), *key).remove(*key)
                    &&& forall|i: int|
                        0 <= i < removed@.len() ==> old(self).groups()[#[trigger] removed@[i].0]
                            == removed@[i].1
                },
                Err(missing) => {
                    &&& subtree(old(self).tree(), *key).contains(missing.key)
                    &&& !old(self).groups().contains_key(missing.key)
                    &&& keys_of(missing.removed@).no_duplicates()
                    &&& keys_of(missing.removed@).to_set().subset_of(
                        subtree(old(self).tree(), *key).remove(*key),
                    )
                    &&& keys_of(missing.removed@).to_set().subset_of(old(self).groups().dom())
                    &&& final(self).groups() == old(self).groups().remove_keys(
                        keys_of(missing.removed@).to_set(),
                    )
                    &&& final(self).stopping() == old(self).stopping().difference(
                        keys_of(missing.removed@).to_set(),
                    )
                    &&& forall|i: int|
                        0 <= i < missing.removed@.len() ==> old(self).groups()[
                            #[trigger] missing.removed@[i].0
                        ] == missing.removed@[i].1
                },
            },
    {
        let ghost old_groups = self.groups@;
        let ghost old_stopping = self.stopping@;
        let ghost doomed_set = subtree(self.tree(), *key);
        proof {
            lemma_reaches_self(self.tree(), *key);
        }
        if !self.groups.contains_key(key) {
            let missing = MissingGroup { key: key.clone(), removed: Vec::new() };
            assert(keys_of(missing.removed@) =~= Seq::<K>::empty());
            assert(self.groups@ =~= old_groups.remove_keys(Set::empty()));
            assert(self.stopping@ =~= old_stopping.difference(Set::empty()));
            return Err(missing);
        }
        let mut doomed = self.descendants(key);
        doomed.remove(key);
        let ghost below = doomed_set.remove(*key);
        assert(doomed@ == below);
        let ghost seen = spec_hash_keys_iter(&doomed).remaining().unref();
        let mut removed: Vec<(K, G)> = Vec::new();
        for k in it: doomed.iter()
            invariant
                key_model::<K>(),
                self.children@ == old(self).children@,
                finite_tree(self.tree()),
                doomed_set == subtree(old(self).tree(), *key),
                below == doomed_set.remove(*key),
                old_groups == old(self).groups(),
                old_stopping == old(self).stopping(),
                old_groups.contains_key(*key),
                doomed@ == below,
                it.seq().unref() == seen,
                seen.no_duplicates(),
                seen.to_set() == below,
                seen.take(it.index()).to_set().subset_of(old_groups.dom()),
                self.groups@ == old_groups.remove_keys(seen.take(it.index()).to_set()),
                self.stopping@ == old_stopping.difference(seen.take(it.index()).to_set()),
                keys_of(removed@) == seen.take(it.index()),
                forall|i: int|
                    0 <= i < removed@.len() ==> old_groups[#[trigger] removed@[i].0]
                        == removed@[i].1,
        {
            let ghost idx: int = it.index();
            let ghost prefix = seen.take(idx);
            let ghost before = removed@;
            assert(seen[idx] == *k);
            assert(seen.take(idx + 1) =~= prefix.push(*k));
            assert(seen.take(idx + 1).to_set() =~= prefix.to_set().insert(*k)) by {
                prefix.lemma_push_to_set_commute(*k);
            }
            assert(!prefix.contains(*k)) by {
                if prefix.contains(*k) {
                    let j = choose|j: int| 0 <= j < idx && prefix[j] == *k;
                    assert(seen[j] == seen[idx]);
                }
            }
            assert(prefix.no_duplicates()) by {
                assert forall|a: int, b: int| 0 <= a < b < prefix.len() implies prefix[a]
                    != prefix[b] by {
                    assert(prefix[a] == seen[a] && prefix[b] == seen[b]);
                }
            }
            assert(seen.to_set().contains(*k));
            match self.groups.remove(k) {
                Some(g) => {
                    self.stopping.remove(k);
                    removed.push((k.clone(), g));
                    assert(keys_of(removed@) =~= seen.take(idx + 1)) by {
                        assert(keys_of(removed@) =~= keys_of(before).push(*k));
                    }
                    assert(self.groups@ =~= old_groups.remove_keys(seen.take(idx + 1).to_set()));
                    assert(self.stopping@ =~= old_stopping.difference(
                        seen.take(idx + 1).to_set(),
                    ));
                },
                None => {
                    assert(!old_groups.contains_key(*k));
                    assert(self.groups@ =~= old_groups.remove_keys(prefix.to_set()));
                    assert(prefix.to_set().subset_of(below)) by {
                        assert forall|x: K| prefix.to_set().contains(x) implies below.contains(
                            x,
                        ) by {
                            let j = choose|j: int| 0 <= j < prefix.len() && prefix[j] == x;
                            assert(seen[j] == x);
                            assert(seen.to_set().contains(seen[j]));
                        }
                    }
                    assert(!doomed_set.subset_of(old_groups.dom()));
                    let missing = MissingGroup { key: k.clone(), removed };
                    return Err(missing);
                },
            }
        }
        assert(seen.take(seen.len() as int) =~= seen);
        self.stopping.insert(key.clone());
        assert(self.groups@ =~= old_groups.remove_keys(below));
        assert(self.stopping@ =~= old_stopping.difference(doomed_set).insert(*key));
        assert(doomed_set.subset_of(old_groups.dom()));
        Ok(removed)
    }

    /// Completely removes the group `key` if it is marked as stopping,
    /// returning it; any other group is left alone.
    pub fn finish_group(&mut self, key: &K) -> (finished: Option<G>)
        requires
            old(self).wf(),
            key_model::<K>(),
        ensures
            final(self).wf(),
            final(self).tree() == old(self).tree(),
            old(self).stopping().contains(*key) ==> {
                &&& finished == (if old(self).groups().contains_key(*key) {
                    Some(old(self).groups()[*key])
                } else {
                    None
                })
                &&& final(self).groups() == old(self).groups().remove(*key)
                &&& final(self).stopping() == old(self).stopping().remove(*key)
            },
            !old(self).stopping().contains(*key) ==> {
                &&& finished is None
                &&& final(self).groups() == old(self).groups()
                &&& final(self).stopping() == old(self).stopping()
            },
    {
        if self.stopping.remove(key) {
            let finished = self.groups.remove(key);
            assert(self.groups@ =~= old(self).groups@.remove(*key));
            finished
        } else {
            None
        }
    }

    /// Whether the group `key` is marked as stopping.
    pub fn is_stopping(&self, key: &K) -> (stopping: bool)
        requires
            key_model::<K>(),
        ensures
            stopping == self.stopping().contains(*key),
    {
        self.stopping.contains(key)
    }
}

impl<K: Clone + Eq + Hash, G> Default for TaskManager<K, G> {
    fn default() -> (tm: Self)
        ensures
            tm.wf(),
            tm.groups() == Map::<K, G>::empty(),
            tm.tree() == Map::<K, Set<K>>::empty(),
            tm.stopping() == Set::<K>::empty(),
    {
        TaskManager::new()
    }
}

} // verus!
