//! The tree as text: an outline with one line per node, and a nested dump.
//!
//! How a name or a datum reads as text is for its own `Display` or `Debug` to
//! say. What is decided here is how those texts are put together, and that is
//! stated over the texts, one per node and one per link.
use crate::tree::{labels, Label, NodeId, NodeModel, Tree};
use std::fmt::{Debug, Display};
use vstd::prelude::*;
use vstd::string::StringExecFns;

verus! {

/// `n` dashes.
pub open spec fn dashes(n: nat) -> Seq<char> {
    Seq::new(n, |i: int| '-')
}

/// The line of one node in the outline.
pub open spec fn line(indent: nat, name: Seq<char>, datum: Seq<char>) -> Seq<char> {
    dashes(indent) + seq!['+', ' '] + name + seq![' ', '('] + datum + seq![')', '\n']
}

/// The outline of node `at` and all below it: its own line under `name` with
/// `indent` dashes, then the outline of each child, oldest first, with two
/// dashes more.
pub open spec fn outline_of<K, Data>(
    m: Seq<NodeModel<K, Data>>,
    names: Seq<Seq<Seq<char>>>,
    data: Seq<Seq<char>>,
    at: NodeId,
    indent: nat,
    name: Seq<char>,
) -> Seq<char>
    decreases m.len() - at, 1nat, 0nat,
{
    line(indent, name, data[at as int]) + outline_below(m, names, data, at, indent + 2, m[at as int].links.len())
}

/// The outlines of the first `k` children of node `at`.
pub open spec fn outline_below<K, Data>(
    m: Seq<NodeModel<K, Data>>,
    names: Seq<Seq<Seq<char>>>,
    data: Seq<Seq<char>>,
    at: NodeId,
    indent: nat,
    k: nat,
) -> Seq<char>
    decreases m.len() - at, 0nat, k,
{
    if k == 0 || k > m[at as int].links.len() {
        Seq::empty()
    } else {
        let c = m[at as int].links[k - 1].1;
        outline_below(m, names, data, at, indent, (k - 1) as nat) + (if at < c < m.len() {
            outline_of(m, names, data, c, indent, names[at as int][k - 1])
        } else {
            Seq::empty()
        })
    }
}

/// The dump of node `at` and all below it: in brackets its datum and then,
/// for each child, oldest first, the name, an arrow and the child's dump.
pub open spec fn dump_of<K, Data>(
    m: Seq<NodeModel<K, Data>>,
    names: Seq<Seq<Seq<char>>>,
    data: Seq<Seq<char>>,
    at: NodeId,
) -> Seq<char>
    decreases m.len() - at, 1nat, 0nat,
{
    seq!['('] + data[at as int] + seq![' '] + dump_below(m, names, data, at, m[at as int].links.len()) + seq![')']
}

/// The part of a dump that the first `k` children of node `at` make up.
pub open spec fn dump_below<K, Data>(
    m: Seq<NodeModel<K, Data>>,
    names: Seq<Seq<Seq<char>>>,
    data: Seq<Seq<char>>,
    at: NodeId,
    k: nat,
) -> Seq<char>
    decreases m.len() - at, 0nat, k,
{
    if k == 0 || k > m[at as int].links.len() {
        Seq::empty()
    } else {
        let c = m[at as int].links[k - 1].1;
        dump_below(m, names, data, at, (k - 1) as nat) + names[at as int][k - 1] + seq![' ', '-', '>', ' '] + (if at < c
            < m.len() {
            dump_of(m, names, data, c)
        } else {
            Seq::empty()
        }) + seq![' ']
    }
}

/// The texts of a table of strings, row by row.
pub open spec fn rows(table: Seq<Vec<String>>) -> Seq<Seq<Seq<char>>> {
    Seq::new(table.len(), |i: int| labels(table[i]@))
}

/// Whether there is a text for every node and for every link.
pub open spec fn shaped<K, Data>(m: Seq<NodeModel<K, Data>>, names: Seq<Seq<Seq<char>>>, data: Seq<Seq<char>>) -> bool {
    &&& data.len() == m.len()
    &&& names.len() == m.len()
    &&& forall|i: int| 0 <= i < m.len() ==> (#[trigger] names[i]).len() == m[i].links.len()
}

impl<Name: Label, Data> Tree<Name, Data> {
    /// Appends to `out` the outline of node `at` and all below it. `prefix`
    /// holds the dashes of the node's own line, `name` the text it goes by,
    /// `names` the text of every link's name and `data` that of every node's
    /// datum.
    pub fn fmt_indent(
        &self,
        at: NodeId,
        prefix: &str,
        name: &str,
        names: &Vec<Vec<String>>,
        data: &Vec<String>,
        out: &mut String,
    )
        requires
            self.wf(),
            self.has(at),
            shaped(self@, rows(names@), labels(data@)),
            prefix@ == dashes(prefix@.len()),
        ensures
            final(out)@ == old(out)@ + outline_of(self@, rows(names@), labels(data@), at, prefix@.len(), name@),
        decreases self.size() - at,
    {
        let ghost start = out@;
        let ghost indent = prefix@.len();
        let ghost nn = rows(names@);
        let ghost dd = labels(data@);
        proof {
            reveal_strlit("+ ");
            reveal_strlit(" (");
            reveal_strlit(")\n");
            reveal_strlit("--");
        }
        out.append(prefix);
        out.append("+ ");
        out.append(name);
        out.append(" (");
        out.append(data[at].as_str());
        out.append(")\n");
        let mut deeper = String::from_str(prefix);
        deeper.append("--");
        proof {
            assert("+ "@ =~= seq!['+', ' ']);
            assert(" ("@ =~= seq![' ', '(']);
            assert(")\n"@ =~= seq![')', '\n']);
            assert("--"@ =~= seq!['-', '-']);
            assert(out@ =~= start + line(indent, name@, dd[at as int]));
            assert(deeper@ =~= dashes(indent + 2));
        }
        let n = self.degree(at);
        let mut k: usize = 0;
        while k < n
            invariant
                self.wf(),
                self.has(at),
                shaped(self@, nn, dd),
                nn == rows(names@),
                dd == labels(data@),
                k <= n,
                n == self.links(at).len(),
                deeper@ == dashes(indent + 2),
                deeper@.len() == indent + 2,
                out@ == start + line(indent, name@, dd[at as int]) + outline_below(self@, nn, dd, at, indent + 2, k as nat),
            decreases n - k,
        {
            let (_, c) = self.link(at, k);
            let ghost before = out@;
            proof {
                assert(self.links(at)[k as int].1 == c);
                assert(c < self.size() && self.parent_of(c) == Some(at));
                assert(c != 0);
                assert(self.parent_of(c).unwrap() < c);
                assert(nn[at as int] == labels(names@[at as int]@));
            }
            self.fmt_indent(c, deeper.as_str(), names[at][k].as_str(), names, data, out);
            proof {
                assert(out@ =~= start + line(indent, name@, dd[at as int]) + outline_below(
                    self@,
                    nn,
                    dd,
                    at,
                    indent + 2,
                    (k + 1) as nat,
                ));
            }
            k = k + 1;
        }
    }

    /// The outline of the whole tree, the root under the name `.`, from the
    /// texts of its names and data.
    pub fn outline_with(&self, names: &Vec<Vec<String>>, data: &Vec<String>) -> (r: String)
        requires
            self.wf(),
            shaped(self@, rows(names@), labels(data@)),
        ensures
            r@ == outline_of(self@, rows(names@), labels(data@), 0, 0, seq!['.']),
    {
        let mut out = String::new();
        proof {
            reveal_strlit("");
            reveal_strlit(".");
            assert(""@ =~= dashes(0));
            assert("."@ =~= seq!['.']);
        }
        self.fmt_indent(self.root(), "", ".", names, data, &mut out);
        proof {
            assert(out@ =~= outline_of(self@, rows(names@), labels(data@), 0, 0, seq!['.']));
        }
        out
    }

    /// Appends to `out` the dump of node `at` and all below it.
    pub fn dump_into(&self, at: NodeId, names: &Vec<Vec<String>>, data: &Vec<String>, out: &mut String)
        requires
            self.wf(),
            self.has(at),
            shaped(self@, rows(names@), labels(data@)),
        ensures
            final(out)@ == old(out)@ + dump_of(self@, rows(names@), labels(data@), at),
        decreases self.size() - at,
    {
        let ghost start = out@;
        let ghost nn = rows(names@);
        let ghost dd = labels(data@);
        proof {
            reveal_strlit("(");
            reveal_strlit(" ");
            reveal_strlit(" -> ");
            reveal_strlit(")");
        }
        out.append("(");
        out.append(data[at].as_str());
        out.append(" ");
        proof {
            assert("("@ =~= seq!['(']);
            assert(" "@ =~= seq![' ']);
            assert(")"@ =~= seq![')']);
            assert(" -> "@ =~= seq![' ', '-', '>', ' ']);
        }
        let ghost head = out@;
        let n = self.degree(at);
        let mut k: usize = 0;
        while k < n
            invariant
                self.wf(),
                self.has(at),
                shaped(self@, nn, dd),
                nn == rows(names@),
                dd == labels(data@),
                k <= n,
                n == self.links(at).len(),
                " "@ == seq![' '],
                " -> "@ == seq![' ', '-', '>', ' '],
                out@ == head + dump_below(self@, nn, dd, at, k as nat),
            decreases n - k,
        {
            let (_, c) = self.link(at, k);
            proof {
                assert(self.links(at)[k as int].1 == c);
                assert(c < self.size() && self.parent_of(c) == Some(at));
                assert(c != 0);
                assert(self.parent_of(c).unwrap() < c);
                assert(nn[at as int] == labels(names@[at as int]@));
            }
            out.append(names[at][k].as_str());
            out.append(" -> ");
            self.dump_into(c, names, data, out);
            out.append(" ");
            proof {
                assert(out@ =~= head + dump_below(self@, nn, dd, at, (k + 1) as nat));
            }
            k = k + 1;
        }
        out.append(")");
        proof {
            assert(out@ =~= start + dump_of(self@, nn, dd, at));
        }
    }

    /// The dump of the whole tree from the texts of its names and data.
    pub fn dump_with(&self, names: &Vec<Vec<String>>, data: &Vec<String>) -> (r: String)
        requires
            self.wf(),
            shaped(self@, rows(names@), labels(data@)),
        ensures
            r@ == dump_of(self@, rows(names@), labels(data@), 0),
    {
        let mut out = String::new();
        self.dump_into(self.root(), names, data, &mut out);
        proof {
            assert(out@ =~= dump_of(self@, rows(names@), labels(data@), 0));
        }
        out
    }
}

/// Calls `format!` with `{:?}` on the value: the text that the value's own
/// `Debug` writes. Nothing is claimed of it.
#[verifier::external_body]
fn debug_text<T: Debug>(value: &T) -> (r: String) {
    format!("{:?}", value)
}

impl<Name: Label + Display, Data: Display> Tree<Name, Data> {
    /// The text of every link's name and of every node's datum, as their
    /// `Display` writes them.
    pub fn display_texts(&self) -> (r: (Vec<Vec<String>>, Vec<String>))
        requires
            self.wf(),
        ensures
            shaped(self@, rows(r.0@), labels(r.1@)),
            forall|i: int|
                0 <= i < self.size() ==> vstd::string::to_string_from_display_ensures::<Data>(
                    &self.data_of(i as NodeId),
                    #[trigger] r.1@[i],
                ),
    {
        let mut names: Vec<Vec<String>> = Vec::new();
        let mut data: Vec<String> = Vec::new();
        let n = self.len();
        let mut i: usize = 0;
        while i < n
            invariant
                n == self.size(),
                i <= n,
                names@.len() == i,
                data@.len() == i,
                forall|j: int| 0 <= j < i ==> (#[trigger] names@[j])@.len() == self@[j].links.len(),
                forall|j: int|
                    0 <= j < i ==> vstd::string::to_string_from_display_ensures::<Data>(
                        &self.data_of(j as NodeId),
                        #[trigger] data@[j],
                    ),
            decreases n - i,
        {
            let mut row: Vec<String> = Vec::new();
            let m = self.degree(i);
            let mut k: usize = 0;
            while k < m
                invariant
                    i < n,
                    n == self.size(),
                    m == self.links(i).len(),
                    k <= m,
                    row@.len() == k,
                decreases m - k,
            {
                let (name, _) = self.link(i, k);
                row.push(name.to_string());
                k = k + 1;
            }
            names.push(row);
            data.push(self.data(i).to_string());
            i = i + 1;
        }
        proof {
            assert forall|j: int| 0 <= j < self@.len() implies (#[trigger] rows(names@)[j]).len() == self@[j].links.len() by {
                assert(names@[j]@.len() == self@[j].links.len());
            }
        }
        (names, data)
    }

    /// The outline of the whole tree, one line per node: the root under the
    /// name `.`, every child two dashes deeper than its parent, names and
    /// data as their `Display` writes them.
    pub fn display_string(&self) -> (r: String)
        requires
            self.wf(),
        ensures
            exists|names: Seq<Seq<Seq<char>>>, data: Seq<Seq<char>>|
                shaped(self@, names, data) && r@ == outline_of(self@, names, data, 0, 0, seq!['.']),
    {
        let (names, data) = self.display_texts();
        let r = self.outline_with(&names, &data);
        proof {
            assert(shaped(self@, rows(names@), labels(data@)) && r@ == outline_of(
                self@,
                rows(names@),
                labels(data@),
                0,
                0,
                seq!['.'],
            ));
        }
        r
    }
}

impl<Name: Label + Debug, Data: Debug> Tree<Name, Data> {
    /// The text of every link's name and of every node's datum, as their
    /// `Debug` writes them.
    pub fn debug_texts(&self) -> (r: (Vec<Vec<String>>, Vec<String>))
        requires
            self.wf(),
        ensures
            shaped(self@, rows(r.0@), labels(r.1@)),
    {
        let mut names: Vec<Vec<String>> = Vec::new();
        let mut data: Vec<String> = Vec::new();
        let n = self.len();
        let mut i: usize = 0;
        while i < n
            invariant
                n == self.size(),
                i <= n,
                names@.len() == i,
                data@.len() == i,
                forall|j: int| 0 <= j < i ==> (#[trigger] names@[j])@.len() == self@[j].links.len(),
            decreases n - i,
        {
            let mut row: Vec<String> = Vec::new();
            let m = self.degree(i);
            let mut k: usize = 0;
            while k < m
                invariant
                    i < n,
                    n == self.size(),
                    m == self.links(i).len(),
                    k <= m,
                    row@.len() == k,
                decreases m - k,
            {
                let (name, _) = self.link(i, k);
                row.push(debug_text(name));
                k = k + 1;
            }
            names.push(row);
            data.push(debug_text(self.data(i)));
            i = i + 1;
        }
        proof {
            assert forall|j: int| 0 <= j < self@.len() implies (#[trigger] rows(names@)[j]).len() == self@[j].links.len() by {
                assert(names@[j]@.len() == self@[j].links.len());
            }
        }
        (names, data)
    }

    /// The dump of the whole tree, names and data as their `Debug` writes
    /// them.
    pub fn debug_string(&self) -> (r: String)
        requires
            self.wf(),
        ensures
            exists|names: Seq<Seq<Seq<char>>>, data: Seq<Seq<char>>|
                shaped(self@, names, data) && r@ == dump_of(self@, names, data, 0),
    {
        let (names, data) = self.debug_texts();
        let r = self.dump_with(&names, &data);
        proof {
            assert(shaped(self@, rows(names@), labels(data@)) && r@ == dump_of(self@, rows(names@), labels(data@), 0));
        }
        r
    }
}

} // verus!
