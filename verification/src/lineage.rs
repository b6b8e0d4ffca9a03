//! The tree as the parent map defines it. A group's lineage is the group,
//! its parent, its parent's parent and so on, as the parent map names them.
//! A registry keeps a children map whose links are exactly the parent links
//! of every group created so far and of all their ancestors; this module
//! shows that walking that map down from a group finds exactly the groups
//! whose lineage passes through it.

use vstd::prelude::*;

use crate::tree::{is_chain, is_child, lemma_reaches_self, reaches, subtree};

verus! {

/// The parent map names `parent` as the parent of `child`.
pub open spec fn parent_link<K, P: Fn(&K) -> Option<K>>(pm: P, child: K, parent: K) -> bool {
    call_ensures(pm, (&child,), Some(parent))
}

/// A non-empty sequence of groups in which each is the parent of the one before.
pub open spec fn is_lineage<K, P: Fn(&K) -> Option<K>>(pm: P, s: Seq<K>) -> bool {
    &&& s.len() > 0
    &&& forall|i: int| 0 <= i < s.len() - 1 ==> #[trigger] parent_link(pm, s[i], s[i + 1])
}

/// `anc` is `g` itself or one of its ancestors under the parent map.
pub open spec fn under<K, P: Fn(&K) -> Option<K>>(pm: P, g: K, anc: K) -> bool {
    exists|s: Seq<K>| #[trigger] is_lineage(pm, s) && s[0] == g && s.last() == anc
}

/// Every group whose lineage passes through `key`, `key` included.
pub open spec fn lineage_below<K, P: Fn(&K) -> Option<K>>(pm: P, key: K) -> Set<K> {
    Set::new(|g: K| under(pm, g, key))
}

/// The groups of `keys` and all of their ancestors.
pub open spec fn upward<K, P: Fn(&K) -> Option<K>>(pm: P, keys: Set<K>) -> Set<K> {
    Set::new(|n: K| exists|g: K| keys.contains(g) && #[trigger] under(pm, g, n))
}

/// `key`, and every group below it among `keys` and their ancestors.
pub open spec fn known_below<K, P: Fn(&K) -> Option<K>>(pm: P, keys: Set<K>, key: K) -> Set<K> {
    Set::new(|n: K| n == key || (upward(pm, keys).contains(n) && under(pm, n, key)))
}

/// Each parent is ranked strictly lower than its children.
pub open spec fn ranked_by<K, P: Fn(&K) -> Option<K>>(pm: P, rank: spec_fn(K) -> nat) -> bool {
    forall|k: K, p: K| #[trigger] parent_link(pm, k, p) ==> rank(p) < rank(k)
}

/// The parent map describes a tree: it can be asked about any key, gives one
/// answer per key, and no lineage goes on for ever (so there is no cycle).
pub open spec fn tree_shaped<K, P: Fn(&K) -> Option<K>>(pm: P) -> bool {
    &&& forall|k: K| #[trigger] call_requires(pm, (&k,))
    &&& forall|k: K, a: Option<K>, b: Option<K>|
        #![trigger call_ensures(pm, (&k,), a), call_ensures(pm, (&k,), b)]
        call_ensures(pm, (&k,), a) && call_ensures(pm, (&k,), b) ==> a == b
    &&& exists|rank: spec_fn(K) -> nat| #[trigger] ranked_by(pm, rank)
}

/// `n` was created, or is recorded as somebody's parent.
pub open spec fn known<K>(tree: Map<K, Set<K>>, created: Set<K>, n: K) -> bool {
    created.contains(n) || tree.contains_key(n)
}

/// Every recorded parent has at least one child.
pub open spec fn no_empty_sets<K>(tree: Map<K, Set<K>>) -> bool {
    forall|p: K| #[trigger] tree.contains_key(p) ==> exists|c: K| is_child(tree, p, c)
}

/// Every link of the tree is a parent link of a created group or of one of
/// their ancestors.
pub open spec fn links_sound<K, P: Fn(&K) -> Option<K>>(
    tree: Map<K, Set<K>>,
    pm: P,
    created: Set<K>,
) -> bool {
    forall|p: K, c: K|
        #[trigger] is_child(tree, p, c) ==> parent_link(pm, c, p) && upward(pm, created).contains(c)
}

/// Every known group is linked to its parent.
pub open spec fn links_complete<K, P: Fn(&K) -> Option<K>>(
    tree: Map<K, Set<K>>,
    pm: P,
    created: Set<K>,
) -> bool {
    forall|n: K, p: K|
        known(tree, created, n) && #[trigger] parent_link(pm, n, p) ==> is_child(tree, p, n)
}

/// The links of the tree are exactly the parent links of the created groups
/// and of all their ancestors.
pub open spec fn links_exact<K, P: Fn(&K) -> Option<K>>(
    tree: Map<K, Set<K>>,
    pm: P,
    created: Set<K>,
) -> bool {
    forall|p: K, c: K|
        #![trigger is_child(tree, p, c)]
        #![trigger parent_link(pm, c, p)]
        is_child(tree, p, c) <==> (parent_link(pm, c, p) && upward(pm, created).contains(c))
}

/// Every group lies under itself.
pub proof fn lemma_under_self<K, P: Fn(&K) -> Option<K>>(pm: P, g: K)
    ensures
        under(pm, g, g),
{
    assert(is_lineage(pm, seq![g]));
}

/// The parent of an ancestor is an ancestor.
pub proof fn lemma_under_step<K, P: Fn(&K) -> Option<K>>(pm: P, g: K, n: K, p: K)
    requires
        under(pm, g, n),
        parent_link(pm, n, p),
    ensures
        under(pm, g, p),
{
    let s = choose|s: Seq<K>| #[trigger] is_lineage(pm, s) && s[0] == g && s.last() == n;
    let t = s.push(p);
    assert forall|i: int|
        0 <= i < t.len() - 1 implies #[trigger] parent_link(pm, t[i], t[i + 1]) by {
        if i < s.len() - 1 {
            assert(parent_link(pm, s[i], s[i + 1]));
        }
    }
    assert(is_lineage(pm, t));
}

/// An ancestor of an ancestor is an ancestor.
pub proof fn lemma_under_transitive<K, P: Fn(&K) -> Option<K>>(pm: P, a: K, b: K, c: K)
    requires
        under(pm, a, b),
        under(pm, b, c),
    ensures
        under(pm, a, c),
{
    let s1 = choose|s: Seq<K>| #[trigger] is_lineage(pm, s) && s[0] == a && s.last() == b;
    let s2 = choose|s: Seq<K>| #[trigger] is_lineage(pm, s) && s[0] == b && s.last() == c;
    let joined = s1 + s2.skip(1);
    assert forall|i: int| 0 <= i < joined.len() - 1 implies #[trigger] parent_link(
        pm,
        joined[i],
        joined[i + 1],
    ) by {
        if i < s1.len() - 1 {
            assert(parent_link(pm, s1[i], s1[i + 1]));
        } else {
            let j: int = i - (s1.len() - 1);
            assert(parent_link(pm, s2[j], s2[j + 1]));
        }
    }
    assert(is_lineage(pm, joined));
    if s2.len() == 1 {
        assert(joined.last() == s1.last());
    } else {
        assert(joined.last() == s2.last());
    }
}

/// The parent of a group of `upward(keys)` is in it too.
pub proof fn lemma_upward_step<K, P: Fn(&K) -> Option<K>>(pm: P, keys: Set<K>, n: K, p: K)
    requires
        upward(pm, keys).contains(n),
        parent_link(pm, n, p),
    ensures
        upward(pm, keys).contains(p),
{
    let g = choose|g: K| keys.contains(g) && #[trigger] under(pm, g, n);
    lemma_under_step(pm, g, n, p);
}

/// With every known group linked, a lineage that starts at a known group is
/// linked all the way, and ends at a known group.
proof fn lemma_lineage_linked<K, P: Fn(&K) -> Option<K>>(
    tree: Map<K, Set<K>>,
    pm: P,
    created: Set<K>,
    s: Seq<K>,
)
    requires
        links_complete(tree, pm, created),
        is_lineage(pm, s),
        known(tree, created, s[0]),
    ensures
        known(tree, created, s.last()),
        forall|i: int| 0 <= i < s.len() - 1 ==> #[trigger] is_child(tree, s[i + 1], s[i]),
    decreases s.len(),
{
    if s.len() > 1 {
        let t = s.drop_last();
        assert forall|i: int| 0 <= i < t.len() - 1 implies #[trigger] parent_link(
            pm,
            t[i],
            t[i + 1],
        ) by {
            assert(parent_link(pm, s[i], s[i + 1]));
        }
        lemma_lineage_linked(tree, pm, created, t);
        let n: int = s.len() - 2;
        assert(parent_link(pm, s[n], s[n + 1]));
        assert(t.last() == s[n]);
        assert(is_child(tree, s[n + 1], s[n]));
        assert forall|i: int| 0 <= i < s.len() - 1 implies #[trigger] is_child(
            tree,
            s[i + 1],
            s[i],
        ) by {
            if i < n {
                assert(is_child(tree, t[i + 1], t[i]));
            }
        }
    }
}

/// A lineage whose links are all in the tree, read backwards, is a descent in
/// the tree.
proof fn lemma_linked_lineage_reaches<K>(tree: Map<K, Set<K>>, s: Seq<K>)
    requires
        s.len() > 0,
        forall|i: int| 0 <= i < s.len() - 1 ==> #[trigger] is_child(tree, s[i + 1], s[i]),
    ensures
        reaches(tree, s.last(), s[0]),
{
    let path = s.reverse();
    assert forall|j: int| 0 <= j < path.len() - 1 implies #[trigger] is_child(
        tree,
        path[j],
        path[j + 1],
    ) by {
        let i: int = s.len() - 2 - j;
        assert(is_child(tree, s[i + 1], s[i]));
    }
    assert(is_chain(tree, path));
    assert(path[0] == s.last());
    assert(path.last() == s[0]);
}

/// A descent in a soundly linked tree, read backwards, is a lineage.
proof fn lemma_descent_is_lineage<K, P: Fn(&K) -> Option<K>>(
    tree: Map<K, Set<K>>,
    pm: P,
    created: Set<K>,
    path: Seq<K>,
)
    requires
        links_sound(tree, pm, created),
        is_chain(tree, path),
    ensures
        is_lineage(pm, path.reverse()),
        path.len() > 1 ==> upward(pm, created).contains(path.last()),
{
    let s = path.reverse();
    assert forall|i: int|
        0 <= i < s.len() - 1 implies #[trigger] parent_link(pm, s[i], s[i + 1]) by {
        let j: int = path.len() - 2 - i;
        assert(is_child(tree, path[j], path[j + 1]));
    }
    if path.len() > 1 {
        let j: int = path.len() - 2;
        assert(is_child(tree, path[j], path[j + 1]));
    }
}

/// Exact links are sound and, with no empty child sets, complete.
pub proof fn lemma_exact_is_sound_and_complete<K, P: Fn(&K) -> Option<K>>(
    tree: Map<K, Set<K>>,
    pm: P,
    created: Set<K>,
)
    requires
        links_exact(tree, pm, created),
        no_empty_sets(tree),
    ensures
        links_sound(tree, pm, created),
        links_complete(tree, pm, created),
{
    assert forall|n: K, p: K|
        known(tree, created, n) && #[trigger] parent_link(pm, n, p) implies is_child(
        tree,
        p,
        n,
    ) by {
        if created.contains(n) {
            lemma_under_self(pm, n);
            assert(upward(pm, created).contains(n));
        } else {
            assert(tree.contains_key(n));
            let c = choose|c: K| is_child(tree, n, c);
            assert(is_child(tree, n, c));
            lemma_upward_step(pm, created, c, n);
        }
    }
}

/// Sound and complete links are exact.
pub proof fn lemma_sound_and_complete_is_exact<K, P: Fn(&K) -> Option<K>>(
    tree: Map<K, Set<K>>,
    pm: P,
    created: Set<K>,
)
    requires
        links_sound(tree, pm, created),
        links_complete(tree, pm, created),
    ensures
        links_exact(tree, pm, created),
{
    assert forall|p: K, c: K|
        parent_link(pm, c, p) && upward(pm, created).contains(c) implies #[trigger] is_child(
        tree,
        p,
        c,
    ) by {
        let g = choose|g: K| created.contains(g) && #[trigger] under(pm, g, c);
        let s = choose|s: Seq<K>| #[trigger] is_lineage(pm, s) && s[0] == g && s.last() == c;
        lemma_lineage_linked(tree, pm, created, s);
    }
}

/// With exact links, the subtree of `key` is `key` together with every
/// created group, or ancestor of one, whose lineage passes through `key`.
pub proof fn lemma_subtree_is_lineage<K, P: Fn(&K) -> Option<K>>(
    tree: Map<K, Set<K>>,
    pm: P,
    created: Set<K>,
    key: K,
)
    requires
        links_exact(tree, pm, created),
        no_empty_sets(tree),
    ensures
        subtree(tree, key) == known_below(pm, created, key),
{
    lemma_exact_is_sound_and_complete(tree, pm, created);
    assert forall|n: K|
        subtree(tree, key).contains(n) implies known_below(pm, created, key).contains(n) by {
        let path = choose|path: Seq<K>|
            #[trigger] is_chain(tree, path) && path[0] == key && path.last() == n;
        lemma_descent_is_lineage(tree, pm, created, path);
        let s = path.reverse();
        assert(s[0] == n && s.last() == key);
        assert(under(pm, n, key));
    }
    assert forall|n: K| known_below(pm, created, key).contains(n) implies subtree(
        tree,
        key,
    ).contains(n) by {
        if n == key {
            lemma_reaches_self(tree, key);
        } else {
            let g = choose|g: K| created.contains(g) && #[trigger] under(pm, g, n);
            let s1 = choose|s: Seq<K>| #[trigger] is_lineage(pm, s) && s[0] == g && s.last() == n;
            lemma_lineage_linked(tree, pm, created, s1);
            let s2 = choose|s: Seq<K>| #[trigger] is_lineage(pm, s) && s[0] == n && s.last() == key;
            lemma_lineage_linked(tree, pm, created, s2);
            lemma_linked_lineage_reaches(tree, s2);
        }
    }
    assert(subtree(tree, key) =~= known_below(pm, created, key));
}

/// Two trees whose links are exactly those of the same created groups under
/// the same parent map, with no empty child sets, are the same tree.
pub proof fn lemma_exact_links_fix_the_tree<K, P: Fn(&K) -> Option<K>>(
    t1: Map<K, Set<K>>,
    t2: Map<K, Set<K>>,
    pm: P,
    created: Set<K>,
)
    requires
        links_exact(t1, pm, created),
        links_exact(t2, pm, created),
        no_empty_sets(t1),
        no_empty_sets(t2),
    ensures
        t1 == t2,
{
    assert forall|p: K| t1.contains_key(p) implies t2.contains_key(p) by {
        let c = choose|c: K| is_child(t1, p, c);
        assert(is_child(t1, p, c));
        assert(is_child(t2, p, c));
    }
    assert forall|p: K| t2.contains_key(p) implies t1.contains_key(p) by {
        let c = choose|c: K| is_child(t2, p, c);
        assert(is_child(t2, p, c));
        assert(is_child(t1, p, c));
    }
    assert forall|p: K| t1.contains_key(p) implies t1[p] =~= t2[p] by {
        assert forall|c: K| t1[p].contains(c) <==> t2[p].contains(c) by {
            if t1[p].contains(c) {
                assert(is_child(t1, p, c));
                assert(is_child(t2, p, c));
            }
            if t2[p].contains(c) {
                assert(is_child(t2, p, c));
                assert(is_child(t1, p, c));
            }
        }
    }
    assert(t1 =~= t2);
}

} // verus!
