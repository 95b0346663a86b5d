//! The tree itself: an arena of nodes addressed by stable indices.
//!
//! A node is named by the index it was given when it was inserted; the index
//! never changes and is never reused. The root is index 0. A node's parent is
//! stored as a plain index, its children as a list of `(name, index)` pairs in
//! which no name occurs twice.
use vstd::prelude::*;

verus! {

/// What a child's name must offer: a mathematical value by which two names are
/// the same or not, a test for it, and a copy.
pub trait Label: View + Sized {
    /// Whether two names denote the same label.
    fn same(&self, other: &Self) -> (r: bool)
        ensures
            r == (self@ == other@),
    ;

    /// A second name with the same label.
    fn duplicate(&self) -> (r: Self)
        ensures
            r@ == self@,
    ;
}

impl Label for String {
    fn same(&self, other: &Self) -> (r: bool) {
        self.eq(other)
    }

    fn duplicate(&self) -> (r: Self) {
        self.clone()
    }
}

impl Label for u64 {
    fn same(&self, other: &Self) -> (r: bool) {
        *self == *other
    }

    fn duplicate(&self) -> (r: Self) {
        *self
    }
}

/// The handle of a node: its index in the arena.
pub type NodeId = usize;

/// The child that `name` selects in a list of `(name, child)` links, if any.
pub open spec fn lookup<K>(links: Seq<(K, NodeId)>, name: K) -> Option<NodeId>
    decreases links.len(),
{
    if links.len() == 0 {
        None
    } else if links.last().0 == name {
        Some(links.last().1)
    } else {
        lookup(links.drop_last(), name)
    }
}

/// `lookup` finds nothing exactly when no link carries the name.
pub proof fn lemma_lookup_none<K>(links: Seq<(K, NodeId)>, name: K)
    ensures
        lookup(links, name) is None <==> forall|k: int| 0 <= k < links.len() ==> (#[trigger] links[k]).0 != name,
    decreases links.len(),
{
    if links.len() > 0 {
        lemma_lookup_none(links.drop_last(), name);
        if links.last().0 != name {
            assert forall|k: int| 0 <= k < links.len() - 1 implies (#[trigger] links[k]).0 != name
                <==> (#[trigger] links.drop_last()[k]).0 != name by {}
            if lookup(links, name) is None {
                assert forall|k: int| 0 <= k < links.len() implies (#[trigger] links[k]).0 != name by {
                    if k < links.len() - 1 {
                        assert(links.drop_last()[k] == links[k]);
                    }
                }
            } else {
                let k = choose|k: int| 0 <= k < links.len() - 1 && (#[trigger] links.drop_last()[k]).0 == name;
                assert(links[k].0 == name);
            }
        }
    }
}

/// Where no name occurs twice, `lookup` finds the child of each link.
pub proof fn lemma_lookup_some<K>(links: Seq<(K, NodeId)>, k: int)
    requires
        0 <= k < links.len(),
        forall|i: int, j: int| 0 <= i < j < links.len() ==> (#[trigger] links[i]).0 != (#[trigger] links[j]).0,
    ensures
        lookup(links, links[k].0) == Some(links[k].1),
    decreases links.len(),
{
    if k < links.len() - 1 {
        assert(links[k].0 != links[links.len() - 1].0);
        assert(links.drop_last()[k] == links[k]);
        assert forall|i: int, j: int| 0 <= i < j < links.drop_last().len() implies (#[trigger] links.drop_last()[i]).0
            != (#[trigger] links.drop_last()[j]).0 by {
            assert(links.drop_last()[i] == links[i]);
            assert(links.drop_last()[j] == links[j]);
        }
        lemma_lookup_some(links.drop_last(), k);
    }
}

/// What `lookup` finds is the child of some link with that name.
pub proof fn lemma_lookup_witness<K>(links: Seq<(K, NodeId)>, name: K) -> (k: int)
    requires
        lookup(links, name) is Some,
    ensures
        0 <= k < links.len(),
        links[k].0 == name,
        lookup(links, name) == Some(links[k].1),
    decreases links.len(),
{
    if links.last().0 == name {
        links.len() - 1
    } else {
        let k = lemma_lookup_witness(links.drop_last(), name);
        assert(links.drop_last()[k] == links[k]);
        k
    }
}

/// Whether one of the links leads to `child`.
pub open spec fn linked<K>(links: Seq<(K, NodeId)>, child: NodeId) -> bool {
    exists|k: int| 0 <= k < links.len() && (#[trigger] links[k]).1 == child
}

struct Node<Name, Data> {
    data: Data,
    parent: Option<NodeId>,
    children: Vec<(Name, NodeId)>,
}

/// A rooted tree whose nodes carry a `Data` and whose edges carry a `Name`.
pub struct Tree<Name, Data> {
    nodes: Vec<Node<Name, Data>>,
}

/// What a node is, taken as a mathematical value: its data, its parent's
/// handle, and its links to its children, oldest first.
pub struct NodeModel<K, Data> {
    pub data: Data,
    pub parent: Option<NodeId>,
    pub links: Seq<(K, NodeId)>,
}

/// The nodes of a tree that is only a root, which holds `data`.
pub open spec fn root_only<K, Data>(data: Data) -> Seq<NodeModel<K, Data>> {
    seq![NodeModel { data, parent: None, links: Seq::empty() }]
}

/// The nodes `m` with a leaf added as the child `name` of node `at`: the leaf
/// comes last and holds `data`, `at` has one link more.
pub open spec fn with_leaf<K, Data>(m: Seq<NodeModel<K, Data>>, at: NodeId, name: K, data: Data) -> Seq<
    NodeModel<K, Data>,
> {
    m.update(
        at as int,
        NodeModel { data: m[at as int].data, parent: m[at as int].parent, links: m[at as int].links.push((name, m.len() as NodeId)) },
    ).push(NodeModel { data, parent: Some(at), links: Seq::empty() })
}

/// The nodes `m` with the nodes `sub` attached as the child `name` of node
/// `at`: the nodes of `sub` follow those of `m` in their own order, their
/// handles raised by the length of `m`, and the first of them has `at` as its
/// parent.
pub open spec fn with_subtree<K, Data>(
    m: Seq<NodeModel<K, Data>>,
    at: NodeId,
    name: K,
    sub: Seq<NodeModel<K, Data>>,
) -> Seq<NodeModel<K, Data>> {
    m.update(
        at as int,
        NodeModel { data: m[at as int].data, parent: m[at as int].parent, links: m[at as int].links.push((name, m.len() as NodeId)) },
    ) + Seq::new(
        sub.len(),
        |j: int|
            NodeModel {
                data: sub[j].data,
                parent: if j == 0 {
                    Some(at)
                } else {
                    Some((sub[j].parent.unwrap() + m.len()) as NodeId)
                },
                links: moved(sub[j].links, m.len() as NodeId),
            },
    )
}

impl<Name: Label, Data> View for Tree<Name, Data> {
    type V = Seq<NodeModel<Name::V, Data>>;

    closed spec fn view(&self) -> Self::V {
        Seq::new(
            self.nodes@.len(),
            |i: int| NodeModel { data: self.nodes@[i].data, parent: self.nodes@[i].parent, links: named(self.nodes@[i].children@) },
        )
    }
}

impl<Name: Label, Data> Tree<Name, Data> {
    /// The number of nodes.
    pub open spec fn size(&self) -> nat {
        self@.len()
    }

    /// Whether `at` is the handle of a node of this tree.
    pub open spec fn has(&self, at: NodeId) -> bool {
        at < self.size()
    }

    /// The data held by node `at`.
    pub open spec fn data_of(&self, at: NodeId) -> Data {
        self@[at as int].data
    }

    /// The parent of node `at`; the root has none.
    pub open spec fn parent_of(&self, at: NodeId) -> Option<NodeId> {
        self@[at as int].parent
    }

    /// The links from node `at` to its children, oldest first.
    pub open spec fn links(&self, at: NodeId) -> Seq<(Name::V, NodeId)> {
        self@[at as int].links
    }

    /// The child of node `at` under `name`, if there is one.
    pub open spec fn child_of(&self, at: NodeId, name: Name::V) -> Option<NodeId> {
        lookup(self.links(at), name)
    }

    /// The children of node `at` as a mapping from name to handle.
    pub open spec fn children_of(&self, at: NodeId) -> Map<Name::V, NodeId> {
        Map::new(|n: Name::V| self.child_of(at, n) is Some, |n: Name::V| self.child_of(at, n).unwrap())
    }

    /// The structural invariant: node 0 is the only root; every other node has
    /// a parent with a smaller index and is among that parent's children;
    /// every link leads to a node whose parent is the link's origin; and no
    /// node has two links with the same name or to the same child.
    pub open spec fn wf(&self) -> bool {
        &&& self.size() >= 1
        &&& self.parent_of(0) is None
        &&& forall|i: NodeId| 0 < i < self.size() ==> (#[trigger] self.parent_of(i)) is Some && self.parent_of(i).unwrap() < i
        &&& forall|i: NodeId, k: int|
            i < self.size() && 0 <= k < self.links(i).len() ==> {
                let c = (#[trigger] self.links(i)[k]).1;
                c < self.size() && self.parent_of(c) == Some(i)
            }
        &&& forall|i: NodeId, j: int, k: int|
            i < self.size() && 0 <= j < k < self.links(i).len() ==> (#[trigger] self.links(i)[j]).0 != (#[trigger] self.links(i)[k]).0
        &&& forall|i: NodeId, j: int, k: int|
            i < self.size() && 0 <= j < k < self.links(i).len() ==> (#[trigger] self.links(i)[j]).1 != (#[trigger] self.links(i)[k]).1
        &&& forall|i: NodeId| 0 < i < self.size() ==> #[trigger] linked(self.links(self.parent_of(i).unwrap()), i)
    }

    /// How a tree `after` relates to this one when a leaf with `data` has been
    /// added as the child `name` of node `at` and has got the handle `id`:
    /// the leaf is the newest node, `at` has one link more, and every other
    /// node is as it was.
    pub open spec fn grown_by_leaf(&self, after: Self, at: NodeId, name: Name::V, data: Data, id: NodeId) -> bool {
        &&& id == self.size()
        &&& after@ == with_leaf(self@, at, name, data)
    }

    /// The handle of the root.
    pub fn root(&self) -> (id: NodeId)
        ensures
            id == 0,
    {
        0
    }

    /// A tree of one node, the root, which holds `data`.
    pub fn new(data: Data) -> (tree: Self)
        ensures
            tree.wf(),
            tree@ == root_only::<Name::V, Data>(data),
    {
        let mut nodes: Vec<Node<Name, Data>> = Vec::new();
        nodes.push(Node { data, parent: None, children: Vec::new() });
        let tree = Tree { nodes };
        proof {
            assert(tree@[0].links =~= Seq::empty());
            assert(tree@ =~= root_only::<Name::V, Data>(data));
        }
        tree
    }

    /// Adds a leaf that holds `data` as the child `name` of node `at`, and
    /// returns the leaf's handle. Every other node keeps its handle, data,
    /// parent and children.
    pub fn insert(&mut self, at: NodeId, name: Name, data: Data) -> (id: NodeId)
        requires
            old(self).wf(),
            old(self).has(at),
            old(self).child_of(at, name@) is None,
        ensures
            final(self).wf(),
            old(self).grown_by_leaf(*final(self), at, name@, data, id),
    {
        let id = self.nodes.len();
        proof {
            lemma_lookup_none(self.links(at), name@);
        }
        self.nodes[at].children.push((name, id));
        proof {
            assert(self.nodes@.len() == old(self).nodes@.len());
            assert(forall|i: int| 0 <= i < self.nodes@.len() && i != at ==> self.nodes@[i] == old(self).nodes@[i]);
            assert(self.nodes@[at as int].data == old(self).nodes@[at as int].data);
            assert(self.nodes@[at as int].parent == old(self).nodes@[at as int].parent);
            assert(self.nodes@[at as int].children@ == old(self).nodes@[at as int].children@.push((name, id)));
        }
        self.nodes.push(Node { data, parent: Some(at), children: Vec::new() });
        proof {
            assert forall|i: NodeId| i < old(self).size() implies self.parent_of(i) == old(self).parent_of(i)
                && self.data_of(i) == old(self).data_of(i) by {
                if i != at {
                    assert(self.nodes@[i as int] == old(self).nodes@[i as int]);
                }
            }
            assert forall|i: NodeId| 0 < i < self.size() implies (#[trigger] self.parent_of(i)) is Some
                && self.parent_of(i).unwrap() < i by {
                if i < old(self).size() {
                    assert(self.parent_of(i) == old(self).parent_of(i));
                }
            }
            assert(self.parent_of(0) == old(self).parent_of(0));
            assert(self.links(at) =~= old(self).links(at).push((name@, id)));
            assert(self.links(id) =~= Seq::empty());
            assert forall|i: NodeId| i < old(self).size() && i != at implies self.links(i) == old(self).links(i) by {
                assert(self.nodes@[i as int] == old(self).nodes@[i as int]);
            }
            assert forall|i: NodeId, k: int| i < self.size() && 0 <= k < self.links(i).len() implies {
                let c = (#[trigger] self.links(i)[k]).1;
                c < self.size() && self.parent_of(c) == Some(i)
            } by {
                if i == at {
                    if k < old(self).links(at).len() {
                        assert(self.links(i)[k] == old(self).links(i)[k]);
                    }
                } else if i < old(self).size() {
                    assert(self.links(i)[k] == old(self).links(i)[k]);
                }
            }
            assert forall|i: NodeId, j: int, k: int| i < self.size() && 0 <= j < k < self.links(i).len() implies
                (#[trigger] self.links(i)[j]).0 != (#[trigger] self.links(i)[k]).0 by {
                if i == at {
                    assert(self.links(i)[j] == old(self).links(i)[j]);
                    if k < old(self).links(at).len() {
                        assert(self.links(i)[k] == old(self).links(i)[k]);
                    }
                } else if i < old(self).size() {
                    assert(self.links(i)[j] == old(self).links(i)[j]);
                    assert(self.links(i)[k] == old(self).links(i)[k]);
                }
            }
            assert forall|i: NodeId, j: int, k: int| i < self.size() && 0 <= j < k < self.links(i).len() implies
                (#[trigger] self.links(i)[j]).1 != (#[trigger] self.links(i)[k]).1 by {
                if i == at {
                    assert(self.links(i)[j] == old(self).links(i)[j]);
                    assert(old(self).links(i)[j].1 < old(self).size());
                    if k < old(self).links(at).len() {
                        assert(self.links(i)[k] == old(self).links(i)[k]);
                    }
                } else if i < old(self).size() {
                    assert(self.links(i)[j] == old(self).links(i)[j]);
                    assert(self.links(i)[k] == old(self).links(i)[k]);
                }
            }
            assert forall|i: NodeId| 0 < i < self.size() implies #[trigger] linked(
                self.links(self.parent_of(i).unwrap()),
                i,
            ) by {
                if i < old(self).size() {
                    let p = old(self).parent_of(i).unwrap();
                    assert(linked(old(self).links(p), i));
                    let k = choose|k: int| 0 <= k < old(self).links(p).len() && (#[trigger] old(self).links(p)[k]).1 == i;
                    assert(self.links(p)[k] == old(self).links(p)[k]);
                } else {
                    assert(self.links(at)[old(self).links(at).len() as int].1 == id);
                }
            }
            assert(self@ =~= with_leaf(old(self)@, at, name@, data));
        }
        id
    }

    /// How a tree `after` relates to this one when the whole tree `sub` has
    /// been attached as the child `name` of node `at`: the nodes of `sub` follow
    /// the nodes that were there, in their own order, so that node `j` of `sub`
    /// has the handle `id + j`; the root of `sub` has `at` as its parent; and
    /// every node that was there is as it was, but for the new link of `at`.
    pub open spec fn grown_by_subtree(&self, after: Self, at: NodeId, name: Name::V, sub: Self, id: NodeId) -> bool {
        &&& id == self.size()
        &&& after@ == with_subtree(self@, at, name, sub@)
    }

    /// A copy of a list of links in which every child's handle is `by` higher.
    fn shifted(kids: &Vec<(Name, NodeId)>, by: NodeId) -> (r: Vec<(Name, NodeId)>)
        requires
            forall|k: int| 0 <= k < kids@.len() ==> (#[trigger] kids@[k]).1 + by <= usize::MAX,
        ensures
            named(r@) == moved(named(kids@), by),
    {
        let mut out: Vec<(Name, NodeId)> = Vec::new();
        let mut k: usize = 0;
        while k < kids.len()
            invariant
                k <= kids.len(),
                out@.len() == k,
                forall|k: int| 0 <= k < kids@.len() ==> (#[trigger] kids@[k]).1 + by <= usize::MAX,
                forall|j: int| 0 <= j < k ==> (#[trigger] out@[j]).0@ == kids@[j].0@ && out@[j].1 == kids@[j].1 + by,
            decreases kids.len() - k,
        {
            out.push((kids[k].0.duplicate(), kids[k].1 + by));
            k = k + 1;
        }
        proof {
            assert(named(out@) =~= moved(named(kids@), by));
        }
        out
    }

    /// Attaches the tree `subtree` as the child `name` of node `at` and
    /// returns the handle that the root of `subtree` now has.
    pub fn insert_subtree(&mut self, at: NodeId, name: Name, subtree: Self) -> (id: NodeId)
        requires
            old(self).wf(),
            subtree.wf(),
            old(self).has(at),
            old(self).child_of(at, name@) is None,
            old(self).size() + subtree.size() <= usize::MAX,
        ensures
            final(self).wf(),
            old(self).grown_by_subtree(*final(self), at, name@, subtree, id),
    {
        let ghost pre = *old(self);
        let id = self.nodes.len();
        let mut incoming = subtree.nodes;
        let n = incoming.len();
        proof {
            lemma_lookup_none(self.links(at), name@);
        }
        self.nodes[at].children.push((name, id));
        proof {
            assert(forall|i: int| 0 <= i < self.nodes@.len() && i != at ==> self.nodes@[i] == pre.nodes@[i]);
            assert(self.nodes@[at as int].children@ == pre.nodes@[at as int].children@.push((name, id)));
            assert(self.links(at) =~= pre.links(at).push((name@, id)));
        }
        self.nodes.append(&mut incoming);
        proof {
            assert(self.links(at) =~= pre.links(at).push((name@, id)));
        }
        self.nodes[id].parent = Some(at);
        let mut j: usize = 0;
        while j < n
            invariant
                pre.wf(),
                subtree.wf(),
                pre.has(at),
                id == pre.size(),
                n == subtree.size(),
                id + n <= usize::MAX,
                j <= n,
                self.nodes@.len() == id + n,
                forall|i: int| 0 <= i < id && i != at ==> self.nodes@[i] == pre.nodes@[i],
                self.nodes@[at as int].data == pre.nodes@[at as int].data,
                self.nodes@[at as int].parent == pre.nodes@[at as int].parent,
                self.links(at) == pre.links(at).push((name@, id)),
                forall|jj: int| 0 <= jj < n ==> (#[trigger] self.nodes@[id + jj]).data == subtree.nodes@[jj].data,
                self.nodes@[id as int].parent == Some(at),
                forall|jj: int|
                    0 < jj < j ==> (#[trigger] self.nodes@[id + jj]).parent == Some(
                        (subtree.nodes@[jj].parent.unwrap() + id) as NodeId,
                    ),
                forall|jj: int| j <= jj < n && 0 < jj ==> (#[trigger] self.nodes@[id + jj]).parent == subtree.nodes@[jj].parent,
                forall|jj: int|
                    0 <= jj < j ==> named((#[trigger] self.nodes@[id + jj]).children@) == moved(
                        named(subtree.nodes@[jj].children@),
                        id,
                    ),
                forall|jj: int| j <= jj < n ==> (#[trigger] self.nodes@[id + jj]).children == subtree.nodes@[jj].children,
            decreases n - j,
        {
            let i = id + j;
            let ghost before = self.nodes@;
            if j > 0 {
                proof {
                    assert(subtree.parent_of(j) is Some && subtree.parent_of(j).unwrap() < j);
                }
                match self.nodes[i].parent {
                    Some(p) => {
                        self.nodes[i].parent = Some(p + id);
                    },
                    None => {},
                }
            }
            proof {
                assert forall|k: int| 0 <= k < self.nodes@[i as int].children@.len() implies
                    (#[trigger] self.nodes@[i as int].children@[k]).1 + id <= usize::MAX by {
                    assert(self.nodes@[i as int].children == subtree.nodes@[j as int].children);
                    assert(subtree.links(j)[k].1 < subtree.size());
                }
            }
            let kids = Self::shifted(&self.nodes[i].children, id);
            self.nodes[i].children = kids;
            proof {
                assert(forall|x: int| 0 <= x < id + n && x != i ==> self.nodes@[x] == before[x]);
                assert(self.nodes@[i as int].data == before[i as int].data);
                assert(at != i);
                assert(self.links(at) == pre.links(at).push((name@, id)));
                assert forall|jj: int| 0 <= jj < n implies (#[trigger] self.nodes@[id + jj]).data
                    == subtree.nodes@[jj].data by {
                    assert(before[id + jj].data == subtree.nodes@[jj].data);
                }
            }
            j = j + 1;
        }
        proof {
            let after = *self;
            assert forall|jj: NodeId| jj < subtree.size() implies after.links((id + jj) as NodeId) == moved(
                #[trigger] subtree.links(jj),
                id,
            ) by {
                assert(named(self.nodes@[id + jj].children@) == moved(named(subtree.nodes@[jj as int].children@), id));
                assert(after.links((id + jj) as NodeId) =~= named(self.nodes@[id + jj].children@));
                assert(subtree.links(jj) =~= named(subtree.nodes@[jj as int].children@));
            }
            assert forall|i: NodeId| i < pre.size() implies after.data_of(i) == pre.data_of(i) && after.parent_of(i)
                == pre.parent_of(i) by {}
            assert forall|i: NodeId| i < pre.size() && i != at implies after.links(i) == pre.links(i) by {}
            assert forall|jj: NodeId| jj < subtree.size() implies after.data_of((id + jj) as NodeId)
                == #[trigger] subtree.data_of(jj) by {
                assert(self.nodes@[id + jj].data == subtree.nodes@[jj as int].data);
            }
            assert forall|jj: NodeId| 0 < jj < subtree.size() implies after.parent_of((id + jj) as NodeId) == Some(
                ((#[trigger] subtree.parent_of(jj)).unwrap() + id) as NodeId,
            ) by {
                assert(self.nodes@[id + jj].parent == Some((subtree.nodes@[jj as int].parent.unwrap() + id) as NodeId));
            }
            assert forall|i: int| 0 <= i < after@.len() implies after@[i] == with_subtree(pre@, at, name@, subtree@)[i] by {
                if i >= id {
                    let jj = (i - id) as NodeId;
                    assert(after.links((id + jj) as NodeId) == moved(subtree.links(jj), id));
                    assert(after.data_of((id + jj) as NodeId) == subtree.data_of(jj));
                    if jj > 0 {
                        assert(after.parent_of((id + jj) as NodeId) == Some((subtree.parent_of(jj).unwrap() + id) as NodeId));
                    }
                } else if i != at {
                    assert(after.links(i as NodeId) == pre.links(i as NodeId));
                }
            }
            assert(after@ =~= with_subtree(pre@, at, name@, subtree@));
            // the invariant of the grown tree
            assert(after.parent_of(0) == pre.parent_of(0));
            assert forall|i: NodeId| 0 < i < after.size() implies (#[trigger] after.parent_of(i)) is Some
                && after.parent_of(i).unwrap() < i by {
                if i < id {
                    assert(after.parent_of(i) == pre.parent_of(i));
                } else if i > id {
                    let jj = (i - id) as NodeId;
                    assert(subtree.parent_of(jj) is Some && subtree.parent_of(jj).unwrap() < jj);
                    assert(after.parent_of((id + jj) as NodeId) == Some((subtree.parent_of(jj).unwrap() + id) as NodeId));
                }
            }
            assert forall|i: NodeId, k: int| i < after.size() && 0 <= k < after.links(i).len() implies {
                let c = (#[trigger] after.links(i)[k]).1;
                c < after.size() && after.parent_of(c) == Some(i)
            } by {
                if i == at {
                    if k < pre.links(at).len() {
                        assert(after.links(i)[k] == pre.links(i)[k]);
                        assert(after.parent_of(pre.links(i)[k].1) == pre.parent_of(pre.links(i)[k].1));
                    }
                } else if i < id {
                    assert(after.links(i)[k] == pre.links(i)[k]);
                    assert(after.parent_of(pre.links(i)[k].1) == pre.parent_of(pre.links(i)[k].1));
                } else {
                    let jj = (i - id) as NodeId;
                    assert(after.links((id + jj) as NodeId) == moved(subtree.links(jj), id));
                    let c = subtree.links(jj)[k].1;
                    assert(c < subtree.size() && subtree.parent_of(c) == Some(jj));
                    assert(c != 0);
                    assert(after.parent_of((id + c) as NodeId) == Some((subtree.parent_of(c).unwrap() + id) as NodeId));
                }
            }
            assert forall|i: NodeId, a: int, b: int| i < after.size() && 0 <= a < b < after.links(i).len() implies
                (#[trigger] after.links(i)[a]).0 != (#[trigger] after.links(i)[b]).0 by {
                if i == at {
                    assert(after.links(i)[a] == pre.links(i)[a]);
                    if b < pre.links(at).len() {
                        assert(after.links(i)[b] == pre.links(i)[b]);
                    }
                } else if i < id {
                    assert(after.links(i)[a] == pre.links(i)[a]);
                    assert(after.links(i)[b] == pre.links(i)[b]);
                } else {
                    let jj = (i - id) as NodeId;
                    assert(after.links((id + jj) as NodeId) == moved(subtree.links(jj), id));
                    assert(subtree.links(jj)[a].0 != subtree.links(jj)[b].0);
                }
            }
            assert forall|i: NodeId, a: int, b: int| i < after.size() && 0 <= a < b < after.links(i).len() implies
                (#[trigger] after.links(i)[a]).1 != (#[trigger] after.links(i)[b]).1 by {
                if i == at {
                    assert(after.links(i)[a] == pre.links(i)[a]);
                    assert(pre.links(i)[a].1 < pre.size());
                    if b < pre.links(at).len() {
                        assert(after.links(i)[b] == pre.links(i)[b]);
                    }
                } else if i < id {
                    assert(after.links(i)[a] == pre.links(i)[a]);
                    assert(after.links(i)[b] == pre.links(i)[b]);
                } else {
                    let jj = (i - id) as NodeId;
                    assert(after.links((id + jj) as NodeId) == moved(subtree.links(jj), id));
                    assert(subtree.links(jj)[a].1 != subtree.links(jj)[b].1);
                    assert(subtree.links(jj)[a].1 < subtree.size());
                    assert(subtree.links(jj)[b].1 < subtree.size());
                }
            }
            assert forall|i: NodeId| 0 < i < after.size() implies #[trigger] linked(
                after.links(after.parent_of(i).unwrap()),
                i,
            ) by {
                if i < id {
                    let p = pre.parent_of(i).unwrap();
                    assert(after.parent_of(i) == pre.parent_of(i));
                    assert(linked(pre.links(p), i));
                    let k = choose|k: int| 0 <= k < pre.links(p).len() && (#[trigger] pre.links(p)[k]).1 == i;
                    if p != at {
                        assert(after.links(p) == pre.links(p));
                    }
                    assert(after.links(p)[k] == pre.links(p)[k]);
                } else if i == id {
                    assert(after.links(at)[pre.links(at).len() as int].1 == id);
                } else {
                    let jj = (i - id) as NodeId;
                    let sp = subtree.parent_of(jj).unwrap();
                    assert(subtree.parent_of(jj) is Some && sp < jj);
                    assert(linked(subtree.links(sp), jj));
                    let k = choose|k: int| 0 <= k < subtree.links(sp).len() && (#[trigger] subtree.links(sp)[k]).1 == jj;
                    assert(after.parent_of((id + jj) as NodeId) == Some((sp + id) as NodeId));
                    assert(after.links((id + sp) as NodeId) == moved(subtree.links(sp), id));
                    assert(after.links((id + sp) as NodeId)[k].1 == i);
                }
            }
        }
        id
    }

    /// The number of nodes.
    pub fn len(&self) -> (n: usize)
        ensures
            n == self.size(),
    {
        self.nodes.len()
    }

    /// The number of children of node `at`.
    pub fn degree(&self, at: NodeId) -> (n: usize)
        requires
            self.has(at),
        ensures
            n == self.links(at).len(),
    {
        self.nodes[at].children.len()
    }

    /// The `k`-th link of node `at`, oldest first: the child's name and handle.
    pub fn link(&self, at: NodeId, k: usize) -> (r: (&Name, NodeId))
        requires
            self.has(at),
            k < self.links(at).len(),
        ensures
            (r.0@, r.1) == self.links(at)[k as int],
    {
        let pair = &self.nodes[at].children[k];
        (&pair.0, pair.1)
    }

    /// The child of node `at` under `name`, or `None` where it has no such
    /// child.
    pub fn child(&self, at: NodeId, name: &Name) -> (r: Option<NodeId>)
        requires
            self.has(at),
        ensures
            r == self.child_of(at, name@),
    {
        let kids = &self.nodes[at].children;
        let ghost links = self.links(at);
        let mut k: usize = kids.len();
        proof {
            assert(links.take(k as int) =~= links);
        }
        while k > 0
            invariant
                self.has(at),
                k <= kids.len(),
                kids == self.nodes@[at as int].children,
                links == self.links(at),
                lookup(links, name@) == lookup(links.take(k as int), name@),
            decreases k,
        {
            k = k - 1;
            proof {
                assert(links.take(k + 1).last() == links[k as int]);
                assert(links.take(k + 1).drop_last() =~= links.take(k as int));
            }
            if kids[k].0.same(name) {
                return Some(kids[k].1);
            }
        }
        None
    }

    /// The parent of node `at`, or `None` for the root.
    pub fn parent(&self, at: NodeId) -> (r: Option<NodeId>)
        requires
            self.has(at),
        ensures
            r == self.parent_of(at),
    {
        self.nodes[at].parent
    }

    /// The data held by node `at`.
    pub fn data(&self, at: NodeId) -> (r: &Data)
        requires
            self.has(at),
        ensures
            *r == self.data_of(at),
    {
        &self.nodes[at].data
    }

    /// Puts `data` into node `at` and returns what the node held before.
    /// Nothing else changes.
    pub fn replace_data(&mut self, at: NodeId, data: Data) -> (before: Data)
        requires
            old(self).wf(),
            old(self).has(at),
        ensures
            final(self).wf(),
            before == old(self).data_of(at),
            final(self).data_of(at) == data,
            final(self).size() == old(self).size(),
            forall|i: NodeId| i < old(self).size() && i != at ==> final(self).data_of(i) == old(self).data_of(i),
            forall|i: NodeId| i < old(self).size() ==> final(self).parent_of(i) == old(self).parent_of(i),
            forall|i: NodeId| i < old(self).size() ==> final(self).links(i) == old(self).links(i),
    {
        let mut data = data;
        std::mem::swap(&mut self.nodes[at].data, &mut data);
        proof {
            assert forall|i: NodeId| i < old(self).size() implies self.parent_of(i) == old(self).parent_of(i)
                && self.links(i) == old(self).links(i) by {
                if i != at {
                    assert(self.nodes@[i as int] == old(self).nodes@[i as int]);
                }
            }
        }
        data
    }

    /// The children of node `at`, each with its name: every link once, none
    /// twice.
    pub fn children(&self, at: NodeId) -> (r: Vec<(Name, NodeId)>)
        requires
            self.wf(),
            self.has(at),
        ensures
            named(r@) == self.links(at),
            forall|k: int| 0 <= k < r@.len() ==> self.child_of(at, (#[trigger] r@[k]).0@) == Some(r@[k].1),
            forall|n: Name::V| self.child_of(at, n) is Some ==> exists|k: int| 0 <= k < r@.len() && (#[trigger] r@[k]).0@ == n,
            forall|j: int, k: int| 0 <= j < k < r@.len() ==> (#[trigger] r@[j]).0@ != (#[trigger] r@[k]).0@,
    {
        let kids = &self.nodes[at].children;
        let mut out: Vec<(Name, NodeId)> = Vec::new();
        let mut k: usize = 0;
        while k < kids.len()
            invariant
                self.has(at),
                k <= kids.len(),
                kids == self.nodes@[at as int].children,
                out@.len() == k,
                forall|j: int| 0 <= j < k ==> (#[trigger] out@[j]).0@ == kids@[j].0@ && out@[j].1 == kids@[j].1,
            decreases kids.len() - k,
        {
            out.push((kids[k].0.duplicate(), kids[k].1));
            k = k + 1;
        }
        proof {
            let links = self.links(at);
            assert(named(out@) =~= links);
            assert forall|k: int| 0 <= k < out@.len() implies self.child_of(at, (#[trigger] out@[k]).0@) == Some(
                out@[k].1,
            ) by {
                assert(links[k] == (out@[k].0@, out@[k].1));
                lemma_lookup_some(links, k);
            }
            assert forall|n: Name::V| self.child_of(at, n) is Some implies exists|k: int|
                0 <= k < out@.len() && (#[trigger] out@[k]).0@ == n by {
                let k = lemma_lookup_witness(links, n);
                assert(out@[k].0@ == n);
            }
            assert forall|j: int, k: int| 0 <= j < k < out@.len() implies (#[trigger] out@[j]).0@ != (
            #[trigger] out@[k]).0@ by {
                assert(links[j].0 == out@[j].0@);
                assert(links[k].0 == out@[k].0@);
            }
        }
        out
    }

    /// The node that `names` leads to from node `at`, the last name first.
    pub open spec fn resolve(&self, at: NodeId, names: Seq<Name::V>) -> Option<NodeId> {
        resolve_in(self@, at, names)
    }

    /// Descends from node `at` along `names`, taking the last name first, and
    /// returns the node reached, or `None` as soon as a name has no child.
    pub fn recursive_get(&self, at: NodeId, names: Vec<Name>) -> (r: Option<NodeId>)
        requires
            self.wf(),
            self.has(at),
        ensures
            r == self.resolve(at, labels(names@)),
            r matches Some(c) ==> self.has(c),
    {
        let ghost path = labels(names@);
        let mut rest = names;
        let mut cur = at;
        loop
            invariant
                self.wf(),
                self.has(cur),
                path == labels(names@),
                self.resolve(at, path) == self.resolve(cur, labels(rest@)),
            decreases rest@.len(),
        {
            let ghost before = rest@;
            match rest.pop() {
                None => {
                    return Some(cur);
                },
                Some(name) => {
                    proof {
                        assert(labels(before).last() == name@);
                        assert(labels(before).drop_last() =~= labels(rest@));
                    }
                    match self.child(cur, &name) {
                        None => {
                            return None;
                        },
                        Some(c) => {
                            proof {
                                self.lemma_child_parent(cur, name@);
                            }
                            cur = c;
                        },
                    }
                },
            }
        }
    }

    /// Every child is a node of the tree, is not the root, and has the node
    /// it was reached from as its parent.
    pub proof fn lemma_child_parent(&self, at: NodeId, name: Name::V)
        requires
            self.wf(),
            self.has(at),
            self.child_of(at, name) is Some,
        ensures
            self.has(self.child_of(at, name).unwrap()),
            self.child_of(at, name).unwrap() > at,
            self.parent_of(self.child_of(at, name).unwrap()) == Some(at),
    {
        let k = lemma_lookup_witness(self.links(at), name);
        let c = self.links(at)[k].1;
        assert(c < self.size() && self.parent_of(c) == Some(at));
        if c == 0 {
            assert(self.parent_of(0) is None);
        }
        assert(self.parent_of(c).unwrap() < c);
    }
}

/// The links that a list of `(name, child)` pairs stands for: each name by its
/// label.
pub open spec fn named<Name: Label>(pairs: Seq<(Name, NodeId)>) -> Seq<(Name::V, NodeId)> {
    Seq::new(pairs.len(), |k: int| (pairs[k].0@, pairs[k].1))
}

/// The node that `names` leads to from node `at` among the nodes `m`. The last
/// name is followed first: a path is written from the addressed node back to
/// the first step below `at`.
pub open spec fn resolve_in<K, Data>(m: Seq<NodeModel<K, Data>>, at: NodeId, names: Seq<K>) -> Option<NodeId>
    decreases names.len(),
{
    if names.len() == 0 {
        Some(at)
    } else {
        match lookup(m[at as int].links, names.last()) {
            Some(c) => resolve_in(m, c, names.drop_last()),
            None => None,
        }
    }
}

/// A list of links in which every child's handle is `by` higher.
pub open spec fn moved<K>(links: Seq<(K, NodeId)>, by: NodeId) -> Seq<(K, NodeId)> {
    Seq::new(links.len(), |k: int| (links[k].0, (links[k].1 + by) as NodeId))
}

/// The labels of a list of names.
pub open spec fn labels<Name: Label>(names: Seq<Name>) -> Seq<Name::V> {
    Seq::new(names.len(), |k: int| names[k]@)
}

} // verus!
