//! What holds of the tree's operations taken together.
use crate::exclude::{glob_compiles, lemma_any_matches_push};
use crate::tree::{
    lemma_lookup_some, lemma_lookup_witness, linked, lookup, moved, resolve_in, with_leaf, Label, NodeId, NodeModel, Tree,
};
use crate::walk::{begins_with, built, reversed, step, BuildState, EntryModel};
use vstd::prelude::*;

verus! {

/// A link added at the end of a list is found under its name, and every other
/// name finds what it found before.
pub proof fn lemma_lookup_push<K>(links: Seq<(K, NodeId)>, name: K, id: NodeId, other: K)
    ensures
        lookup(links.push((name, id)), name) == Some(id),
        other != name ==> lookup(links.push((name, id)), other) == lookup(links, other),
{
    assert(links.push((name, id)).drop_last() =~= links);
}

/// After a leaf has been inserted under a name, the name is taken: the node
/// has a child under it, the leaf, so that a second insertion under the same
/// name is outside what `insert` and `insert_subtree` accept, whatever data it
/// brings. Every other name of the node selects what it selected before.
pub proof fn law_inserted_name_is_taken<Name: Label, Data>(
    before: Tree<Name, Data>,
    after: Tree<Name, Data>,
    at: NodeId,
    name: Name::V,
    data: Data,
    id: NodeId,
)
    requires
        before.has(at),
        before.grown_by_leaf(after, at, name, data, id),
    ensures
        after.child_of(at, name) == Some(id),
        after.children_of(at) =~= before.children_of(at).insert(name, id),
        forall|other: Name::V| other != name ==> after.child_of(at, other) == before.child_of(at, other),
{
    lemma_lookup_push(before.links(at), name, id, name);
    assert forall|other: Name::V| other != name implies after.child_of(at, other) == before.child_of(at, other) by {
        lemma_lookup_push(before.links(at), name, id, other);
    }
}

/// The same for a whole tree attached under a name.
pub proof fn law_attached_name_is_taken<Name: Label, Data>(
    before: Tree<Name, Data>,
    after: Tree<Name, Data>,
    at: NodeId,
    name: Name::V,
    sub: Tree<Name, Data>,
    id: NodeId,
)
    requires
        before.has(at),
        before.grown_by_subtree(after, at, name, sub, id),
    ensures
        after.child_of(at, name) == Some(id),
        after.children_of(at) =~= before.children_of(at).insert(name, id),
        forall|other: Name::V| other != name ==> after.child_of(at, other) == before.child_of(at, other),
{
    lemma_lookup_push(before.links(at), name, id, name);
    assert forall|other: Name::V| other != name implies after.child_of(at, other) == before.child_of(at, other) by {
        lemma_lookup_push(before.links(at), name, id, other);
    }
}

/// The data given to `insert` is the data that the new leaf holds, and the
/// leaf is reached from its parent under the name it was given.
pub proof fn law_inserted_data_reads_back<Name: Label, Data>(
    before: Tree<Name, Data>,
    after: Tree<Name, Data>,
    at: NodeId,
    name: Name::V,
    data: Data,
    id: NodeId,
)
    requires
        before.has(at),
        before.grown_by_leaf(after, at, name, data, id),
    ensures
        after.child_of(at, name) == Some(id),
        after.data_of(id) == data,
        after.parent_of(id) == Some(at),
{
    lemma_lookup_push(before.links(at), name, id, name);
}

/// A child of a node is a node of the tree, and its parent is the node it is
/// a child of.
pub proof fn law_child_knows_parent<Name: Label, Data>(tree: Tree<Name, Data>, at: NodeId, name: Name::V)
    requires
        tree.wf(),
        tree.has(at),
        tree.child_of(at, name) is Some,
    ensures
        tree.has(tree.child_of(at, name).unwrap()),
        tree.parent_of(tree.child_of(at, name).unwrap()) == Some(at),
{
    tree.lemma_child_parent(at, name);
}

/// Resolving a path takes its last name first and goes on from the child
/// found with the names before it.
pub proof fn law_resolve_step<Name: Label, Data>(
    tree: Tree<Name, Data>,
    at: NodeId,
    names: Seq<Name::V>,
    first: Name::V,
)
    ensures
        tree.resolve(at, names.push(first)) == match tree.child_of(at, first) {
            Some(c) => tree.resolve(c, names),
            None => None,
        },
        tree.resolve(at, Seq::empty()) == Some(at),
{
    assert(names.push(first).drop_last() =~= names);
    assert(names.push(first).last() == first);
}

/// Where `a` leads from `at` to `x`, `b` from `x` to `y` and `c` from `y` to
/// `z`, the path `[c, b, a]` resolves from `at` to `z`.
pub proof fn law_resolve_follows_children<Name: Label, Data>(
    tree: Tree<Name, Data>,
    at: NodeId,
    a: Name::V,
    b: Name::V,
    c: Name::V,
    x: NodeId,
    y: NodeId,
    z: NodeId,
)
    requires
        tree.child_of(at, a) == Some(x),
        tree.child_of(x, b) == Some(y),
        tree.child_of(y, c) == Some(z),
    ensures
        tree.resolve(at, seq![c, b, a]) == Some(z),
{
    let e = Seq::<Name::V>::empty();
    law_resolve_step(tree, z, e, c);
    law_resolve_step(tree, y, e, c);
    law_resolve_step(tree, x, e.push(c), b);
    law_resolve_step(tree, at, e.push(c).push(b), a);
    assert(seq![c, b, a] =~= e.push(c).push(b).push(a));
}

/// A path built leaf by leaf resolves to its last leaf: after `a` has been
/// inserted under `at`, `b` under that leaf and `c` under the second, the path
/// `[c, b, a]` leads from `at` to the third.
pub proof fn law_resolve_finds_inserted_path<Name: Label, Data>(
    t0: Tree<Name, Data>,
    t1: Tree<Name, Data>,
    t2: Tree<Name, Data>,
    t3: Tree<Name, Data>,
    at: NodeId,
    a: Name::V,
    b: Name::V,
    c: Name::V,
    da: Data,
    db: Data,
    dc: Data,
    x: NodeId,
    y: NodeId,
    z: NodeId,
)
    requires
        t0.has(at),
        t0.grown_by_leaf(t1, at, a, da, x),
        t1.grown_by_leaf(t2, x, b, db, y),
        t2.grown_by_leaf(t3, y, c, dc, z),
    ensures
        t3.resolve(at, seq![c, b, a]) == Some(z),
        t3.data_of(z) == dc,
{
    law_inserted_name_is_taken(t0, t1, at, a, da, x);
    law_inserted_name_is_taken(t1, t2, x, b, db, y);
    law_inserted_name_is_taken(t2, t3, y, c, dc, z);
    assert(t2.links(at) == t1.links(at));
    assert(t3.links(at) == t2.links(at));
    assert(t3.links(x) == t2.links(x));
    assert(t3.data_of(z) == dc);
    law_resolve_follows_children(t3, at, a, b, c, x, y, z);
}

/// There is one root: node 0 has no parent, and every other node has one,
/// which was there before it.
pub proof fn law_one_root<Name: Label, Data>(tree: Tree<Name, Data>, at: NodeId)
    requires
        tree.wf(),
        tree.has(at),
    ensures
        at == 0 <==> tree.parent_of(at) is None,
        at != 0 ==> tree.has(tree.parent_of(at).unwrap()) && tree.parent_of(at).unwrap() < at,
{
}

/// Every node but the root is a child of its parent: the parent has a name
/// that selects it.
pub proof fn law_parent_knows_child<Name: Label, Data>(tree: Tree<Name, Data>, at: NodeId) -> (name: Name::V)
    requires
        tree.wf(),
        tree.has(at),
        at != 0,
    ensures
        tree.parent_of(at) is Some,
        tree.child_of(tree.parent_of(at).unwrap(), name) == Some(at),
{
    let p = tree.parent_of(at).unwrap();
    assert(linked(tree.links(p), at));
    let k = choose|k: int| 0 <= k < tree.links(p).len() && (#[trigger] tree.links(p)[k]).1 == at;
    lemma_lookup_some(tree.links(p), k);
    tree.links(p)[k].0
}

/// A node is the child of its parent under one name only.
pub proof fn law_one_name_per_child<Name: Label, Data>(tree: Tree<Name, Data>, at: NodeId, a: Name::V, b: Name::V)
    requires
        tree.wf(),
        tree.has(at),
        tree.child_of(at, a) is Some,
        tree.child_of(at, a) == tree.child_of(at, b),
    ensures
        a == b,
{
    let i = lemma_lookup_witness(tree.links(at), a);
    let j = lemma_lookup_witness(tree.links(at), b);
    if i < j {
        assert(tree.links(at)[i].1 != tree.links(at)[j].1);
    } else if j < i {
        assert(tree.links(at)[j].1 != tree.links(at)[i].1);
    }
}

/// Raising the handles of a list of links raises what a name selects, and
/// changes nothing else.
pub proof fn lemma_lookup_moved<K>(links: Seq<(K, NodeId)>, by: NodeId, name: K)
    ensures
        lookup(moved(links, by), name) == match lookup(links, name) {
            Some(c) => Some((c + by) as NodeId),
            None => None,
        },
    decreases links.len(),
{
    if links.len() > 0 {
        assert(moved(links, by).drop_last() =~= moved(links.drop_last(), by));
        lemma_lookup_moved(links.drop_last(), by, name);
    }
}

/// An attached tree keeps its shape: below the node it was attached to, each
/// of its nodes holds the data it held and has, under the same names, the
/// children it had, every handle raised by the handle its root has got.
pub proof fn law_attached_tree_keeps_its_shape<Name: Label, Data>(
    before: Tree<Name, Data>,
    after: Tree<Name, Data>,
    at: NodeId,
    name: Name::V,
    sub: Tree<Name, Data>,
    id: NodeId,
    j: NodeId,
    below: Name::V,
)
    requires
        before.has(at),
        sub.has(j),
        before.size() + sub.size() <= usize::MAX,
        before.grown_by_subtree(after, at, name, sub, id),
    ensures
        after.data_of((id + j) as NodeId) == sub.data_of(j),
        after.child_of((id + j) as NodeId, below) == match sub.child_of(j, below) {
            Some(c) => Some((c + id) as NodeId),
            None => None,
        },
        after.parent_of(id) == Some(at),
{
    lemma_lookup_moved(sub.links(j), id, below);
}

/// A path that leads somewhere leads to a node of the tree.
pub proof fn lemma_resolved_is_a_node<Name: Label, Data>(tree: Tree<Name, Data>, at: NodeId, names: Seq<Name::V>)
    requires
        tree.wf(),
        tree.has(at),
        tree.resolve(at, names) is Some,
    ensures
        tree.has(tree.resolve(at, names).unwrap()),
    decreases names.len(),
{
    if names.len() > 0 {
        let c = tree.child_of(at, names.last()).unwrap();
        tree.lemma_child_parent(at, names.last());
        lemma_resolved_is_a_node(tree, c, names.drop_last());
    }
}

/// The name written first in a path is followed last: the path leads to the
/// child that this name selects at the node the rest leads to.
pub proof fn lemma_resolve_front<K, Data>(m: Seq<NodeModel<K, Data>>, at: NodeId, front: K, rest: Seq<K>)
    ensures
        resolve_in(m, at, seq![front] + rest) == match resolve_in(m, at, rest) {
            Some(q) => lookup(m[q as int].links, front),
            None => None,
        },
    decreases rest.len(),
{
    let whole = seq![front] + rest;
    if rest.len() == 0 {
        assert(whole.drop_last() =~= Seq::<K>::empty());
        assert(whole.last() == front);
        match lookup(m[at as int].links, front) {
            Some(c) => {
                assert(resolve_in(m, c, Seq::<K>::empty()) == Some(c));
            },
            None => {},
        }
    } else {
        assert(whole.last() == rest.last());
        assert(whole.drop_last() =~= seq![front] + rest.drop_last());
        match lookup(m[at as int].links, rest.last()) {
            Some(c) => {
                lemma_resolve_front(m, c, front, rest.drop_last());
            },
            None => {},
        }
    }
}

/// A new leaf is in nobody's way: a path that led to a node before the leaf
/// was inserted leads to the same node after.
pub proof fn lemma_resolve_after_leaf<Name: Label, Data>(
    tree: Tree<Name, Data>,
    p: NodeId,
    name: Name::V,
    data: Data,
    at: NodeId,
    names: Seq<Name::V>,
)
    requires
        tree.wf(),
        tree.has(p),
        tree.has(at),
        tree.child_of(p, name) is None,
        tree.resolve(at, names) is Some,
    ensures
        resolve_in(with_leaf(tree@, p, name, data), at, names) == tree.resolve(at, names),
    decreases names.len(),
{
    if names.len() > 0 {
        let n = names.last();
        let c = tree.child_of(at, n).unwrap();
        tree.lemma_child_parent(at, n);
        if at == p {
            lemma_lookup_push(tree.links(p), name, tree.size() as NodeId, n);
        }
        lemma_resolve_after_leaf(tree, p, name, data, c, names.drop_last());
    }
}

/// An entry that is placed can be found: after a step that made a node for
/// it, the entry's components lead from the root to that node, the newest,
/// which holds the entry's data.
pub proof fn law_placed_entry_is_found<Data>(
    tree: Tree<String, Data>,
    pruned: Option<Seq<Seq<char>>>,
    rel: Seq<Seq<char>>,
    data: Data,
)
    requires
        tree.wf(),
        tree.size() < usize::MAX,
        rel.len() > 0,
        !(pruned is Some && begins_with(rel, pruned.unwrap())),
        step(BuildState { nodes: tree@, pruned }, rel, data, false) is Ok,
    ensures
        ({
            let next = step(BuildState { nodes: tree@, pruned }, rel, data, false).unwrap();
            &&& next.nodes.len() == tree.size() + 1
            &&& resolve_in(next.nodes, 0, reversed(rel)) == Some(tree.size() as NodeId)
            &&& next.nodes[tree.size() as int].data == data
        }),
{
    let above = reversed(rel.drop_last());
    let p = resolve_in(tree@, 0, above).unwrap();
    let next = with_leaf(tree@, p, rel.last(), data);
    lemma_resolved_is_a_node(tree, 0, above);
    lemma_resolve_after_leaf(tree, p, rel.last(), data, 0, above);
    lemma_resolve_front(next, 0, rel.last(), above);
    assert(reversed(rel) =~= seq![rel.last()] + above);
    lemma_lookup_push(tree.links(p), rel.last(), tree.size() as NodeId, rel.last());
}

/// An entry that a pattern matched, or that lies at or below the entry
/// pruned last, adds no node, whatever it holds.
pub proof fn law_excluded_entry_adds_nothing<Data>(st: BuildState<Data>, rel: Seq<Seq<char>>, data: Data, matched: bool)
    requires
        matched || (st.pruned is Some && begins_with(rel, st.pruned.unwrap())),
    ensures
        step(st, rel, data, matched) is Ok,
        step(st, rel, data, matched).unwrap().nodes == st.nodes,
{
}

/// A pattern that cannot be used changes nothing: with it among the
/// patterns or without it, a walk builds the same or fails the same.
pub proof fn law_unusable_pattern_changes_nothing<Data>(
    root: Data,
    entries: Seq<EntryModel<Data>>,
    patterns: Seq<Seq<char>>,
    bad: Seq<char>,
)
    requires
        !glob_compiles(bad),
    ensures
        built(root, entries, patterns.push(bad)) == built(root, entries, patterns),
    decreases entries.len(),
{
    if entries.len() > 0 {
        law_unusable_pattern_changes_nothing(root, entries.drop_last(), patterns, bad);
        lemma_any_matches_push(patterns, bad, entries.last().path);
    }
}

} // verus!
