//! Growing a tree from the entries of a directory walk.
//!
//! The walk hands over its entries in pre-order, each with its path as walked,
//! its path below the root split into components, and the data for its node.
//! An entry that an exclude pattern matches is pruned with everything below
//! it; every other entry becomes a leaf under the node of its parent
//! directory, which the pre-order has put into the tree before it.
use crate::exclude::{any_matches, texts, Excludes};
use crate::tree::{labels, lookup, resolve_in, root_only, with_leaf, NodeId, NodeModel, Tree};
use vstd::prelude::*;

verus! {

/// Why an entry could not be put into the tree.
#[derive(Debug, Clone, Copy, PartialEq, Eq)]
pub enum Fault {
    /// The node of the entry's parent directory is not in the tree: the
    /// entries did not come in pre-order.
    MissingParent,
    /// The entry's parent already has a child of that name.
    DuplicateName,
}

/// A failed build: which entry, counted from 0, and why.
#[derive(Debug, Clone, Copy, PartialEq, Eq)]
pub struct BuildError {
    pub entry: usize,
    pub fault: Fault,
}

/// One entry of a walk.
pub struct WalkEntry<Data> {
    /// The path as the walk gave it, which the exclude patterns are held
    /// against.
    pub path: String,
    /// The components of the path below the root, outermost first; empty for
    /// the root itself.
    pub rel: Vec<String>,
    /// The data for the entry's node.
    pub data: Data,
}

/// An entry as a mathematical value.
pub struct EntryModel<Data> {
    pub path: Seq<char>,
    pub rel: Seq<Seq<char>>,
    pub data: Data,
}

impl<Data> View for WalkEntry<Data> {
    type V = EntryModel<Data>;

    open spec fn view(&self) -> EntryModel<Data> {
        EntryModel { path: self.path@, rel: labels(self.rel@), data: self.data }
    }
}

/// The entries of a list as mathematical values.
pub open spec fn entry_models<Data>(entries: Seq<WalkEntry<Data>>) -> Seq<EntryModel<Data>> {
    Seq::new(entries.len(), |i: int| entries[i]@)
}

/// A build under way: the nodes so far, and the path of the entry that was
/// pruned last, if any.
pub struct BuildState<Data> {
    pub nodes: Seq<NodeModel<Seq<char>, Data>>,
    pub pruned: Option<Seq<Seq<char>>>,
}

/// Whether `path` begins with the components `prefix`.
pub open spec fn begins_with(path: Seq<Seq<char>>, prefix: Seq<Seq<char>>) -> bool {
    prefix.len() <= path.len() && forall|i: int| 0 <= i < prefix.len() ==> path[i] == prefix[i]
}

/// A sequence back to front.
pub open spec fn reversed<T>(s: Seq<T>) -> Seq<T> {
    Seq::new(s.len(), |i: int| s[s.len() - 1 - i])
}

/// What one entry does to a build. An entry at or below the entry pruned last
/// is passed over. Else, if an exclude pattern matched it, it is pruned. Else,
/// if it is the root, it has its node already. Else it becomes a leaf, named
/// by its last component, under the node that its other components lead to
/// from the root; it is a fault if they lead nowhere or if the name is taken.
pub open spec fn step<Data>(st: BuildState<Data>, rel: Seq<Seq<char>>, data: Data, matched: bool) -> Result<
    BuildState<Data>,
    Fault,
> {
    if st.pruned is Some && begins_with(rel, st.pruned.unwrap()) {
        Ok(st)
    } else if matched {
        Ok(BuildState { nodes: st.nodes, pruned: Some(rel) })
    } else if rel.len() == 0 {
        Ok(st)
    } else {
        match resolve_in(st.nodes, 0, reversed(rel.drop_last())) {
            None => Err(Fault::MissingParent),
            Some(p) => if lookup(st.nodes[p as int].links, rel.last()) is Some {
                Err(Fault::DuplicateName)
            } else {
                Ok(BuildState { nodes: with_leaf(st.nodes, p, rel.last(), data), pruned: st.pruned })
            },
        }
    }
}

/// What a whole walk builds from a root that holds `root`: its entries taken
/// one after the other, up to the first fault. An entry counts as matched when
/// one of the usable `patterns` matches its path as walked.
pub open spec fn built<Data>(root: Data, entries: Seq<EntryModel<Data>>, patterns: Seq<Seq<char>>) -> Result<
    BuildState<Data>,
    BuildError,
>
    decreases entries.len(),
{
    if entries.len() == 0 {
        Ok(BuildState { nodes: root_only(root), pruned: None })
    } else {
        match built(root, entries.drop_last(), patterns) {
            Err(e) => Err(e),
            Ok(st) => {
                let e = entries.last();
                match step(st, e.rel, e.data, any_matches(patterns, e.path)) {
                    Ok(next) => Ok(next),
                    Err(fault) => Err(BuildError { entry: (entries.len() - 1) as usize, fault }),
                }
            },
        }
    }
}

/// The items of `v` back to front.
pub fn reverse_of<T>(v: Vec<T>) -> (r: Vec<T>)
    ensures
        r@ == reversed(v@),
{
    let mut rest = v;
    let mut out: Vec<T> = Vec::new();
    let ghost n = v@.len();
    loop
        invariant
            n == v@.len(),
            rest@.len() + out@.len() == n,
            rest@ == v@.take(rest@.len() as int),
            forall|i: int| 0 <= i < out@.len() ==> out@[i] == v@[n - 1 - i],
        decreases rest@.len(),
    {
        match rest.pop() {
            None => {
                proof {
                    assert(out@ =~= reversed(v@));
                }
                return out;
            },
            Some(item) => {
                out.push(item);
            },
        }
    }
}

/// Whether the components `path` begin with the components `prefix`.
pub fn starts_with(path: &Vec<String>, prefix: &Vec<String>) -> (r: bool)
    ensures
        r == begins_with(labels(path@), labels(prefix@)),
{
    if prefix.len() > path.len() {
        return false;
    }
    let mut i: usize = 0;
    while i < prefix.len()
        invariant
            i <= prefix.len(),
            prefix.len() <= path.len(),
            forall|j: int| 0 <= j < i ==> labels(path@)[j] == labels(prefix@)[j],
        decreases prefix.len() - i,
    {
        if !path[i].eq(&prefix[i]) {
            proof {
                assert(labels(path@)[i as int] != labels(prefix@)[i as int]);
            }
            return false;
        }
        i = i + 1;
    }
    true
}

/// A build under way.
pub struct Builder<Data> {
    tree: Tree<String, Data>,
    pruned: Option<Vec<String>>,
}

impl<Data> View for Builder<Data> {
    type V = BuildState<Data>;

    closed spec fn view(&self) -> BuildState<Data> {
        BuildState {
            nodes: self.tree@,
            pruned: match self.pruned {
                Some(p) => Some(labels(p@)),
                None => None,
            },
        }
    }
}

impl<Data> Builder<Data> {
    /// The tree so far is a tree.
    pub closed spec fn wf(&self) -> bool {
        self.tree.wf()
    }

    /// A build that has seen no entry: the tree is a root that holds `root`.
    pub fn new(root: Data) -> (b: Self)
        ensures
            b.wf(),
            b@ == (BuildState { nodes: root_only::<Seq<char>, Data>(root), pruned: None }),
    {
        Builder { tree: Tree::new(root), pruned: None }
    }

    /// Whether the entry with the components `rel` lies at or below the entry
    /// pruned last, so that no pattern need be held against it and no data
    /// made for it.
    pub fn is_pruned(&self, rel: &Vec<String>) -> (r: bool)
        ensures
            r == (self@.pruned is Some && begins_with(labels(rel@), self@.pruned.unwrap())),
    {
        match &self.pruned {
            Some(p) => starts_with(rel, p),
            None => false,
        }
    }

    /// Takes the next entry of the walk: its components below the root, the
    /// data for its node, and whether an exclude pattern matched its path.
    /// After a fault the build is as it was.
    pub fn add(&mut self, rel: Vec<String>, data: Data, matched: bool) -> (r: Result<(), Fault>)
        requires
            old(self).wf(),
        ensures
            final(self).wf(),
            match step(old(self)@, labels(rel@), data, matched) {
                Ok(next) => r is Ok && final(self)@ == next,
                Err(fault) => r == Err::<(), Fault>(fault) && final(self)@ == old(self)@,
            },
    {
        if self.is_pruned(&rel) {
            return Ok(());
        }
        if matched {
            self.pruned = Some(rel);
            return Ok(());
        }
        let ghost path = labels(rel@);
        let mut rest = rel;
        match rest.pop() {
            None => Ok(()),
            Some(name) => {
                let above = reverse_of(rest);
                proof {
                    assert(path.last() == name@);
                    assert(labels(above@) =~= reversed(path.drop_last()));
                }
                let root = self.tree.root();
                match self.tree.recursive_get(root, above) {
                    None => Err(Fault::MissingParent),
                    Some(p) => {
                        if self.tree.child(p, &name).is_some() {
                            Err(Fault::DuplicateName)
                        } else {
                            self.tree.insert(p, name, data);
                            Ok(())
                        }
                    },
                }
            },
        }
    }

    /// The tree that the entries taken so far have built.
    pub fn finish(self) -> (tree: Tree<String, Data>)
        requires
            self.wf(),
        ensures
            tree.wf(),
            tree@ == self@.nodes,
    {
        self.tree
    }
}

/// A fault ends the build: once the first `k` entries have run into one,
/// the whole walk reports that fault, whatever follows.
pub proof fn lemma_fault_is_final<Data>(root: Data, entries: Seq<EntryModel<Data>>, patterns: Seq<Seq<char>>, k: int)
    requires
        0 <= k <= entries.len(),
        built(root, entries.take(k), patterns) is Err,
    ensures
        built(root, entries, patterns) == built(root, entries.take(k), patterns),
    decreases entries.len(),
{
    if k == entries.len() {
        assert(entries.take(k) =~= entries);
    } else {
        assert(entries.drop_last().take(k) =~= entries.take(k));
        lemma_fault_is_final(root, entries.drop_last(), patterns, k);
    }
}

/// An entry that comes before the node of its parent directory is a fault,
/// and is not passed over: where the entries before the last one build
/// without fault, and the last one is neither pruned nor matched nor the
/// root, and its parent's components lead nowhere from the root, the walk
/// fails at that entry for want of the parent.
pub proof fn law_parent_must_come_first<Data>(root: Data, entries: Seq<EntryModel<Data>>, patterns: Seq<Seq<char>>)
    requires
        entries.len() > 0,
        entries.len() <= usize::MAX,
        built(root, entries.drop_last(), patterns) is Ok,
        ({
            let st = built(root, entries.drop_last(), patterns).unwrap();
            let e = entries.last();
            &&& !(st.pruned is Some && begins_with(e.rel, st.pruned.unwrap()))
            &&& !any_matches(patterns, e.path)
            &&& e.rel.len() > 0
            &&& resolve_in(st.nodes, 0, reversed(e.rel.drop_last())) is None
        }),
    ensures
        built(root, entries, patterns) == Err::<BuildState<Data>, BuildError>(
            BuildError { entry: (entries.len() - 1) as usize, fault: Fault::MissingParent },
        ),
{
}

impl<Data> Tree<String, Data> {
    /// Builds the tree of a walk: a root that holds `root`, and a node for
    /// every entry that is neither matched by a usable pattern of `excludes`
    /// nor below such an entry. A pattern that cannot be used is passed over.
    /// The first entry that cannot be placed ends the build with its number
    /// and the fault, and no tree is returned.
    pub fn construct(root: Data, entries: Vec<WalkEntry<Data>>, excludes: Vec<&str>) -> (r: Result<Self, BuildError>)
        ensures
            match built(root, entry_models(entries@), texts(excludes@)) {
                Ok(st) => r is Ok && r.unwrap().wf() && r.unwrap()@ == st.nodes,
                Err(e) => r == Err::<Self, BuildError>(e),
            },
    {
        let ghost all = entry_models(entries@);
        let ghost patterns = texts(excludes@);
        let (filter, _unusable) = Excludes::compile(excludes);
        let n = entries.len();
        let mut rest = reverse_of(entries);
        let mut builder = Builder::new(root);
        let mut i: usize = 0;
        proof {
            assert(all.take(0) =~= Seq::empty());
        }
        loop
            invariant
                all == entry_models(entries@),
                patterns == texts(excludes@),
                n == entries@.len(),
                i + rest@.len() == n,
                forall|j: int| i <= j < n ==> rest@[n - 1 - j] == entries@[j],
                builder.wf(),
                built(root, all.take(i as int), patterns) == Ok::<BuildState<Data>, BuildError>(builder@),
                forall|path: Seq<char>| #[trigger] filter.excludes(path) == any_matches(patterns, path),
            decreases rest@.len(),
        {
            match rest.pop() {
                None => {
                    proof {
                        assert(all.take(i as int) =~= all);
                    }
                    return Ok(builder.finish());
                },
                Some(entry) => {
                    proof {
                        assert(entry == entries@[i as int]);
                        assert(all.take(i + 1).drop_last() =~= all.take(i as int));
                        assert(all.take(i + 1).last() == entry@);
                    }
                    let WalkEntry { path, rel, data } = entry;
                    let matched = if builder.is_pruned(&rel) {
                        false
                    } else {
                        filter.is_excluded(path.as_str())
                    };
                    match builder.add(rel, data, matched) {
                        Ok(()) => {},
                        Err(fault) => {
                            proof {
                                lemma_fault_is_final(root, all, patterns, i + 1);
                            }
                            return Err(BuildError { entry: i, fault });
                        },
                    }
                    i = i + 1;
                },
            }
        }
    }
}

} // verus!
