//! The nesting of groups: a map from each parent group to the set of its
//! child groups, and the walk that collects a group with all of its
//! descendants.

use std::collections::{HashMap, HashSet};
use std::hash::Hash;
use vstd::prelude::*;
use vstd::std_specs::hash::obeys_key_model;
use vstd::std_specs::hash::spec_hash_keys_iter;
use vstd::std_specs::iter::IteratorSpec;

verus! {

/// Keys behave as the hash containers expect (hashing and `==` agree with
/// identity), and cloning a key yields the very same key.
pub open spec fn key_model<K: Clone>() -> bool {
    &&& obeys_key_model::<K>()
    &&& forall|a: K, b: K| #[trigger] call_ensures(K::clone, (&a,), b) ==> a == b
}

/// The children map seen as mathematical sets.
pub open spec fn tree_of<K>(children: Map<K, HashSet<K>>) -> Map<K, Set<K>> {
    children.map_values(|s: HashSet<K>| s@)
}

/// Every parent has finitely many children, and there are finitely many parents.
pub open spec fn finite_tree<K>(tree: Map<K, Set<K>>) -> bool {
    &&& tree.dom().finite()
    &&& forall|k: K| #[trigger] tree.contains_key(k) ==> tree[k].finite()
}

/// `child` was registered as a child of `parent`.
pub open spec fn is_child<K>(tree: Map<K, Set<K>>, parent: K, child: K) -> bool {
    tree.contains_key(parent) && tree[parent].contains(child)
}

/// A non-empty sequence of groups in which each is a child of the one before.
pub open spec fn is_chain<K>(tree: Map<K, Set<K>>, path: Seq<K>) -> bool {
    &&& path.len() > 0
    &&& forall|i: int| 0 <= i < path.len() - 1 ==> #[trigger] is_child(tree, path[i], path[i + 1])
}

/// `to` is `from` itself or one of its descendants.
pub open spec fn reaches<K>(tree: Map<K, Set<K>>, from: K, to: K) -> bool {
    exists|path: Seq<K>| #[trigger] is_chain(tree, path) && path[0] == from && path.last() == to
}

/// A group together with all of its descendants.
pub open spec fn subtree<K>(tree: Map<K, Set<K>>, root: K) -> Set<K> {
    Set::new(|k: K| reaches(tree, root, k))
}

/// Every group that is registered as somebody's child.
pub open spec fn child_keys<K>(tree: Map<K, Set<K>>) -> Set<K> {
    Set::new(|c: K| exists|p: K| #[trigger] is_child(tree, p, c))
}

/// A set of groups that holds the children of each of its members.
pub open spec fn closed_under<K>(tree: Map<K, Set<K>>, s: Set<K>) -> bool {
    forall|p: K, c: K| s.contains(p) && #[trigger] is_child(tree, p, c) ==> s.contains(c)
}

/// The tree after `key` has been registered under `parent`, if it has one.
pub open spec fn adopt<K>(tree: Map<K, Set<K>>, key: K, parent: Option<K>) -> Map<K, Set<K>> {
    match parent {
        Some(p) => tree.insert(
            p,
            if tree.contains_key(p) {
                tree[p].insert(key)
            } else {
                Set::empty().insert(key)
            },
        ),
        None => tree,
    }
}

/// Every group reaches itself.
pub proof fn lemma_reaches_self<K>(tree: Map<K, Set<K>>, k: K)
    ensures
        reaches(tree, k, k),
{
    let path = seq![k];
    assert(is_chain(tree, path));
}

/// Reaching a parent means reaching each of its children.
pub proof fn lemma_reaches_child<K>(tree: Map<K, Set<K>>, a: K, b: K, c: K)
    requires
        reaches(tree, a, b),
        is_child(tree, b, c),
    ensures
        reaches(tree, a, c),
{
    let path = choose|path: Seq<K>|
        #[trigger] is_chain(tree, path) && path[0] == a && path.last() == b;
    let longer = path.push(c);
    assert forall|i: int| 0 <= i < longer.len() - 1 implies #[trigger] is_child(
        tree,
        longer[i],
        longer[i + 1],
    ) by {
        if i < path.len() - 1 {
            assert(is_child(tree, path[i], path[i + 1]));
        }
    }
    assert(is_chain(tree, longer));
}

/// A closed set that holds the first group of a chain holds its last one.
proof fn lemma_chain_stays_inside<K>(tree: Map<K, Set<K>>, s: Set<K>, path: Seq<K>)
    requires
        is_chain(tree, path),
        s.contains(path[0]),
        closed_under(tree, s),
    ensures
        s.contains(path.last()),
    decreases path.len(),
{
    if path.len() > 1 {
        let shorter = path.drop_last();
        assert forall|i: int| 0 <= i < shorter.len() - 1 implies #[trigger] is_child(
            tree,
            shorter[i],
            shorter[i + 1],
        ) by {
            assert(is_child(tree, path[i], path[i + 1]));
        }
        lemma_chain_stays_inside(tree, s, shorter);
        let n: int = path.len() - 2;
        assert(is_child(tree, path[n], path[n + 1]));
    }
}

/// A closed set that holds a group holds its whole subtree.
pub proof fn lemma_closed_holds_subtree<K>(tree: Map<K, Set<K>>, s: Set<K>, root: K)
    requires
        s.contains(root),
        closed_under(tree, s),
    ensures
        subtree(tree, root).subset_of(s),
{
    assert forall|k: K| subtree(tree, root).contains(k) implies s.contains(k) by {
        let path = choose|path: Seq<K>|
            #[trigger] is_chain(tree, path) && path[0] == root && path.last() == k;
        lemma_chain_stays_inside(tree, s, path);
    }
}

/// The registered children of a finite tree form a finite set.
pub proof fn lemma_child_keys_finite<K>(tree: Map<K, Set<K>>)
    requires
        finite_tree(tree),
    ensures
        child_keys(tree).finite(),
    decreases tree.dom().len(),
{
    if tree.dom().len() == 0 {
        assert(child_keys(tree) =~= Set::empty()) by {
            assert forall|c: K| !child_keys(tree).contains(c) by {
                if child_keys(tree).contains(c) {
                    let p = choose|p: K| #[trigger] is_child(tree, p, c);
                    assert(tree.dom().contains(p));
                }
            }
        }
    } else {
        let k = tree.dom().choose();
        let rest = tree.remove(k);
        assert(rest.dom() =~= tree.dom().remove(k));
        lemma_child_keys_finite(rest);
        let bound = child_keys(rest).union(tree[k]);
        assert(child_keys(tree).subset_of(bound)) by {
            assert forall|c: K| child_keys(tree).contains(c) implies bound.contains(c) by {
                let p = choose|p: K| #[trigger] is_child(tree, p, c);
                if p != k {
                    assert(is_child(rest, p, c));
                }
            }
        }
        vstd::set_lib::lemma_set_subset_finite(bound, child_keys(tree));
    }
}

/// Descent is transitive: a descendant of a descendant is a descendant.
pub proof fn lemma_reaches_transitive<K>(tree: Map<K, Set<K>>, a: K, b: K, c: K)
    requires
        reaches(tree, a, b),
        reaches(tree, b, c),
    ensures
        reaches(tree, a, c),
{
    let p1 = choose|path: Seq<K>|
        #[trigger] is_chain(tree, path) && path[0] == a && path.last() == b;
    let p2 = choose|path: Seq<K>|
        #[trigger] is_chain(tree, path) && path[0] == b && path.last() == c;
    let joined = p1 + p2.skip(1);
    assert forall|i: int| 0 <= i < joined.len() - 1 implies #[trigger] is_child(
        tree,
        joined[i],
        joined[i + 1],
    ) by {
        if i < p1.len() - 1 {
            assert(is_child(tree, p1[i], p1[i + 1]));
        } else {
            let j: int = i - (p1.len() - 1);
            assert(is_child(tree, p2[j], p2[j + 1]));
            if i == p1.len() - 1 {
                assert(joined[i] == p1.last());
            }
        }
    }
    assert(is_chain(tree, joined));
    if p2.len() == 1 {
        assert(joined.last() == p1.last());
    } else {
        assert(joined.last() == p2.last());
    }
}

/// The subtree of any group inside a subtree lies within it.
pub proof fn lemma_subtree_nested<K>(tree: Map<K, Set<K>>, a: K, b: K)
    requires
        reaches(tree, a, b),
    ensures
        subtree(tree, b).subset_of(subtree(tree, a)),
{
    assert forall|c: K| subtree(tree, b).contains(c) implies subtree(tree, a).contains(c) by {
        lemma_reaches_transitive(tree, a, b, c);
    }
}

/// Registering more children never cuts a descent: whatever was reached in
/// `small` is reached in every tree that keeps all of its parent/child links.
pub proof fn lemma_reaches_grows<K>(small: Map<K, Set<K>>, big: Map<K, Set<K>>, a: K, b: K)
    requires
        reaches(small, a, b),
        forall|p: K, c: K| #[trigger] is_child(small, p, c) ==> is_child(big, p, c),
    ensures
        reaches(big, a, b),
{
    let path = choose|path: Seq<K>|
        #[trigger] is_chain(small, path) && path[0] == a && path.last() == b;
    assert forall|i: int| 0 <= i < path.len() - 1 implies #[trigger] is_child(
        big,
        path[i],
        path[i + 1],
    ) by {
        assert(is_child(small, path[i], path[i + 1]));
    }
    assert(is_chain(big, path));
}

/// Registering `key` under a parent keeps every earlier link, makes `key` a
/// child of that parent, and so puts `key` in the subtree of every group that
/// reached the parent.
pub proof fn lemma_adopt_links<K>(tree: Map<K, Set<K>>, key: K, parent: Option<K>, a: K, b: K)
    ensures
        forall|p: K, c: K|
            #[trigger] is_child(tree, p, c) ==> is_child(adopt(tree, key, parent), p, c),
        reaches(tree, a, b) ==> reaches(adopt(tree, key, parent), a, b),
        parent matches Some(p) ==> is_child(adopt(tree, key, parent), p, key),
        parent matches Some(p) && reaches(tree, a, p) ==> reaches(adopt(tree, key, parent), a, key),
{
    let bigger = adopt(tree, key, parent);
    assert forall|p: K, c: K| #[trigger] is_child(tree, p, c) implies is_child(bigger, p, c) by {}
    if reaches(tree, a, b) {
        lemma_reaches_grows(tree, bigger, a, b);
    }
    if let Some(p) = parent {
        assert(is_child(bigger, p, key));
        if reaches(tree, a, p) {
            lemma_reaches_grows(tree, bigger, a, p);
            lemma_reaches_child(bigger, a, p, key);
        }
    }
}

/// Registering `key` under `parent` adds exactly the one link from that
/// parent to `key` and no other: with no parent, the tree is unchanged, and
/// the set of recorded parents grows by that parent alone.
pub proof fn lemma_adopt_adds_exactly_one_link<K>(tree: Map<K, Set<K>>, key: K, parent: Option<K>)
    ensures
        forall|a: K, b: K|
            #[trigger] is_child(adopt(tree, key, parent), a, b) <==> (is_child(tree, a, b) || (
            parent == Some(a) && b == key)),
        parent is None ==> adopt(tree, key, parent) == tree,
        parent matches Some(p) ==> adopt(tree, key, parent).dom() == tree.dom().insert(p),
        parent is None ==> adopt(tree, key, parent).dom() == tree.dom(),
{
    if let Some(p) = parent {
        assert(adopt(tree, key, parent).dom() =~= tree.dom().insert(p));
    }
}

/// Collects `root` and every group below it in the tree, each once.
pub fn collect_subtree<K: Clone + Eq + Hash>(children: &HashMap<K, HashSet<K>>, root: &K) -> (all:
    HashSet<K>)
    requires
        key_model::<K>(),
        finite_tree(tree_of(children@)),
    ensures
        all@ == subtree(tree_of(children@), *root),
{
    let ghost tree = tree_of(children@);
    let ghost univ = child_keys(tree).insert(*root);
    proof {
        lemma_child_keys_finite(tree);
        lemma_reaches_self(tree, *root);
    }
    let mut all: HashSet<K> = HashSet::new();
    let first = root.clone();
    all.insert(first);
    let mut frontier: Vec<K> = Vec::new();
    frontier.push(root.clone());
    assert(frontier@[0] == *root);
    assert(all@ =~= set![*root]);
    while frontier.len() > 0
        invariant
            key_model::<K>(),
            tree == tree_of(children@),
            finite_tree(tree),
            univ == child_keys(tree).insert(*root),
            univ.finite(),
            all@.subset_of(univ),
            all@.contains(*root),
            forall|k: K| #[trigger] all@.contains(k) ==> reaches(tree, *root, k),
            frontier@.no_duplicates(),
            forall|i: int| 0 <= i < frontier@.len() ==> all@.contains(#[trigger] frontier@[i]),
            forall|p: K, c: K|
                all@.contains(p) && !frontier@.contains(p) && #[trigger] is_child(tree, p, c)
                    ==> all@.contains(c),
        decreases univ.len() - all@.len(), frontier@.len(),
    {
        proof {
            vstd::set_lib::lemma_len_subset(all@, univ);
        }
        let ghost all_before = all@;
        let ghost old_frontier = frontier@;
        let x = frontier.pop().unwrap();
        let ghost rest = frontier@;
        assert(old_frontier =~= rest.push(x));
        assert forall|p: K|
            all@.contains(p) && !rest.contains(p) && p != x implies !old_frontier.contains(p) by {
            if old_frontier.contains(p) {
                let j = choose|j: int| 0 <= j < old_frontier.len() && old_frontier[j] == p;
                if j < rest.len() {
                    assert(rest[j] == p);
                }
            }
        }
        assert(!rest.contains(x)) by {
            assert(frontier@.no_duplicates());
        }
        match children.get(&x) {
            Some(kids) => {
                let ghost kid_set = kids@;
                assert(tree.contains_key(x) && tree[x] == kid_set);
                let ghost seen = spec_hash_keys_iter(kids).remaining().unref();
                for c in it: kids.iter()
                    invariant
                        key_model::<K>(),
                        tree == tree_of(children@),
                        kid_set == kids@,
                        tree.contains_key(x) && tree[x] == kid_set,
                        it.seq().unref() == seen,
                        seen.to_set() == kid_set,
                        univ == child_keys(tree).insert(*root),
                        univ.finite(),
                        all_before.subset_of(all@),
                        all@.subset_of(univ),
                        all@.contains(x),
                        reaches(tree, *root, x),
                        forall|k: K| #[trigger] all@.contains(k) ==> reaches(tree, *root, k),
                        frontier@.no_duplicates(),
                        !frontier@.contains(x),
                        rest.len() <= frontier@.len(),
                        forall|j: int| 0 <= j < rest.len() ==> frontier@[j] == #[trigger] rest[j],
                        forall|i: int|
                            0 <= i < frontier@.len() ==> all@.contains(#[trigger] frontier@[i]),
                        forall|p: K, c: K|
                            all@.contains(p) && !frontier@.contains(p) && p != x
                                && #[trigger] is_child(tree, p, c) ==> all@.contains(c),
                        forall|j: int| 0 <= j < it.index() ==> all@.contains(#[trigger] seen[j]),
                        all@.finite(),
                        all_before.finite(),
                        all@.len() == all_before.len() + frontier@.len() - rest.len(),
                {
                    assert(seen[it.index() as int] == *c);
                    if !all.contains(c) {
                        let fresh = c.clone();
                        assert(is_child(tree, x, fresh)) by {
                            assert(seen.to_set().contains(seen[it.index() as int]));
                        }
                        proof {
                            lemma_reaches_child(tree, *root, x, fresh);
                        }
                        let ghost frontier_before = frontier@;
                        let ghost all_mid = all@;
                        all.insert(fresh.clone());
                        frontier.push(fresh);
                        assert(all@ == all_mid.insert(*c));
                        assert forall|k: K|
                            frontier_before.contains(k) implies frontier@.contains(k) by {
                            let j = choose|j: int|
                                0 <= j < frontier_before.len() && frontier_before[j] == k;
                            assert(frontier@[j] == k);
                        }
                        assert(frontier@[frontier@.len() - 1] == *c);
                        assert forall|p: K, q: K|
                            all@.contains(p) && !frontier@.contains(p) && p != x
                                && #[trigger] is_child(tree, p, q) implies all@.contains(q) by {
                            assert(all_mid.contains(p));
                            assert(!frontier_before.contains(p));
                        }
                        assert(frontier@.no_duplicates()) by {
                            assert(!frontier_before.contains(*c));
                        }
                        assert(!frontier@.contains(x)) by {
                            if frontier@.contains(x) {
                                let j = choose|j: int|
                                    0 <= j < frontier@.len() && frontier@[j] == x;
                                if j < frontier_before.len() {
                                    assert(frontier_before[j] == x);
                                }
                            }
                        }
                    }
                }
                proof {
                    assert forall|c: K|
                        #[trigger] is_child(tree, x, c) implies all@.contains(c) by {
                        assert(seen.to_set().contains(c));
                        let j = choose|j: int| 0 <= j < seen.len() && seen[j] == c;
                        assert(all@.contains(seen[j]));
                    }
                }
            },
            None => {
                assert(!tree.contains_key(x));
            },
        }
        proof {
            vstd::set_lib::lemma_len_subset(all@, univ);
        }
    }
    proof {
        assert(closed_under(tree, all@));
        lemma_closed_holds_subtree(tree, all@, *root);
        assert(all@ =~= subtree(tree, *root));
    }
    all
}

} // verus!
