//! Exclusion by glob: patterns are compiled once, and a path is excluded when
//! one of the compiled patterns matches it. Parsing, compiling and matching
//! are `globset`'s; which patterns are kept and what the set as a whole says
//! of a path is decided and proved here.
use globset::{Glob, GlobSet};
use vstd::prelude::*;

verus! {

/// `globset::GlobSet`, a compiled matcher. Nothing of what it holds is known
/// here; it is only handed back to `globset`.
#[verifier::external_type_specification]
#[verifier::external_body]
pub struct ExGlobSet(globset::GlobSet);

/// Whether the pattern can be used: `globset::Glob::new` accepts it and
/// `globset::GlobSet::new` builds a matcher from the glob.
pub uninterp spec fn glob_compiles(pattern: Seq<char>) -> bool;

/// What `globset::GlobSet::is_match` answers for the matcher and the path.
pub uninterp spec fn set_accepts(set: GlobSet, path: Seq<char>) -> bool;

/// Whether the matcher compiled from the pattern matches the path.
pub uninterp spec fn glob_matches(pattern: Seq<char>, path: Seq<char>) -> bool;

/// Parses the pattern with `globset::Glob::new` and builds the matcher of
/// that one glob with `globset::GlobSet::new`. Where either refuses, the
/// result is `None`. The matcher returned otherwise answers for every path
/// as `glob_matches` says for the pattern: what it answers depends on the
/// pattern and the path alone.
#[verifier::external_body]
fn compile_glob(pattern: &str) -> (r: Option<GlobSet>)
    ensures
        r is Some <==> glob_compiles(pattern@),
        r matches Some(s) ==> forall|path: Seq<char>| set_accepts(s, path) == glob_matches(pattern@, path),
{
    match Glob::new(pattern) {
        Ok(glob) => GlobSet::new([glob]).ok(),
        Err(_) => None,
    }
}

/// Calls `globset::GlobSet::is_match` on the path.
#[verifier::external_body]
fn matcher_accepts(set: &GlobSet, path: &str) -> (r: bool)
    ensures
        r == set_accepts(*set, path@),
{
    set.is_match(path)
}

/// Whether one of the usable patterns matches the path.
pub open spec fn any_matches(patterns: Seq<Seq<char>>, path: Seq<char>) -> bool {
    exists|i: int| 0 <= i < patterns.len() && glob_compiles(#[trigger] patterns[i]) && glob_matches(patterns[i], path)
}

/// One pattern more: the longer list matches a path when the shorter one
/// does or the new pattern is usable and matches.
pub proof fn lemma_any_matches_push(patterns: Seq<Seq<char>>, pattern: Seq<char>, path: Seq<char>)
    ensures
        any_matches(patterns.push(pattern), path) == (any_matches(patterns, path) || (glob_compiles(pattern) && glob_matches(
            pattern,
            path,
        ))),
{
    let longer = patterns.push(pattern);
    if any_matches(patterns, path) {
        let i = choose|i: int| 0 <= i < patterns.len() && glob_compiles(#[trigger] patterns[i]) && glob_matches(patterns[i], path);
        assert(longer[i] == patterns[i]);
    }
    if glob_compiles(pattern) && glob_matches(pattern, path) {
        assert(longer[patterns.len() as int] == pattern);
    }
    if any_matches(longer, path) {
        let i = choose|i: int| 0 <= i < longer.len() && glob_compiles(#[trigger] longer[i]) && glob_matches(longer[i], path);
        if i < patterns.len() {
            assert(longer[i] == patterns[i]);
        }
    }
}

/// The texts of a list of patterns.
pub open spec fn texts(patterns: Seq<&str>) -> Seq<Seq<char>> {
    Seq::new(patterns.len(), |i: int| patterns[i]@)
}

/// Whether one of the matchers accepts the path.
pub open spec fn some_accepts(matchers: Seq<GlobSet>, path: Seq<char>) -> bool {
    exists|k: int| 0 <= k < matchers.len() && set_accepts(#[trigger] matchers[k], path)
}

/// The compiled exclude patterns.
pub struct Excludes {
    matchers: Vec<GlobSet>,
}

impl Excludes {
    /// Whether the set excludes the path: one of its matchers accepts it.
    pub closed spec fn excludes(&self, path: Seq<char>) -> bool {
        some_accepts(self.matchers@, path)
    }

    /// Compiles the patterns. A pattern that does not parse or does not
    /// compile is left out and its index reported; the others make up the set,
    /// which excludes a path exactly when one of them matches it.
    pub fn compile(patterns: Vec<&str>) -> (r: (Excludes, Vec<usize>))
        ensures
            forall|path: Seq<char>| #[trigger] r.0.excludes(path) == any_matches(texts(patterns@), path),
            forall|a: int, b: int| 0 <= a < b < r.1@.len() ==> r.1@[a] < r.1@[b],
            forall|i: int| 0 <= i < patterns@.len() ==> (r.1@.contains(i as usize) <==> !glob_compiles(#[trigger] patterns@[i]@)),
            forall|a: int| 0 <= a < r.1@.len() ==> (#[trigger] r.1@[a]) < patterns@.len(),
    {
        let mut matchers: Vec<GlobSet> = Vec::new();
        let mut rejected: Vec<usize> = Vec::new();
        let ghost all = texts(patterns@);
        let mut i: usize = 0;
        while i < patterns.len()
            invariant
                i <= patterns.len(),
                all == texts(patterns@),
                forall|path: Seq<char>| #[trigger] some_accepts(matchers@, path) == any_matches(all.take(i as int), path),
                forall|a: int, b: int| 0 <= a < b < rejected@.len() ==> rejected@[a] < rejected@[b],
                forall|a: int| 0 <= a < rejected@.len() ==> (#[trigger] rejected@[a]) < i,
                forall|j: int| 0 <= j < i ==> (rejected@.contains(j as usize) <==> !glob_compiles(#[trigger] patterns@[j]@)),
            decreases patterns.len() - i,
        {
            let pattern: &str = patterns[i];
            let ghost before = matchers@;
            let ghost rejected_before = rejected@;
            let compiled = compile_glob(pattern);
            proof {
                assert(all.take(i + 1) =~= all.take(i as int).push(pattern@));
            }
            match compiled {
                Some(set) => {
                    matchers.push(set);
                    proof {
                        assert forall|path: Seq<char>| #[trigger]
                            some_accepts(matchers@, path) == any_matches(all.take(i + 1), path) by {
                            lemma_any_matches_push(all.take(i as int), pattern@, path);
                            let had = some_accepts(before, path);
                            assert(had == any_matches(all.take(i as int), path));
                            if had {
                                let k = choose|k: int| 0 <= k < before.len() && set_accepts(#[trigger] before[k], path);
                                assert(matchers@[k] == before[k]);
                            }
                            if glob_matches(pattern@, path) {
                                assert(matchers@[before.len() as int] == set);
                                assert(set_accepts(matchers@[before.len() as int], path));
                            }
                            if some_accepts(matchers@, path) {
                                let k = choose|k: int| 0 <= k < matchers@.len() && set_accepts(#[trigger] matchers@[k], path);
                                if k < before.len() {
                                    assert(before[k] == matchers@[k]);
                                }
                            }
                        }
                        assert forall|j: int| 0 <= j < i + 1 implies (rejected@.contains(j as usize) <==> !glob_compiles(
                            #[trigger] patterns@[j]@,
                        )) by {
                            if j == i && rejected@.contains(j as usize) {
                                let a = choose|a: int| 0 <= a < rejected@.len() && rejected@[a] == j as usize;
                                assert(rejected@[a] < i);
                            }
                        }
                    }
                },
                None => {
                    rejected.push(i);
                    proof {
                        assert forall|path: Seq<char>| #[trigger]
                            some_accepts(matchers@, path) == any_matches(all.take(i + 1), path) by {
                            lemma_any_matches_push(all.take(i as int), pattern@, path);
                        }
                        assert forall|j: int| 0 <= j < i + 1 implies (rejected@.contains(j as usize) <==> !glob_compiles(
                            #[trigger] patterns@[j]@,
                        )) by {
                            if j == i {
                                assert(rejected@[rejected_before.len() as int] == i);
                            } else {
                                if rejected_before.contains(j as usize) {
                                    let a = choose|a: int| 0 <= a < rejected_before.len() && rejected_before[a] == j as usize;
                                    assert(rejected@[a] == j as usize);
                                }
                                if rejected@.contains(j as usize) {
                                    let a = choose|a: int| 0 <= a < rejected@.len() && rejected@[a] == j as usize;
                                    assert(a < rejected_before.len());
                                    assert(rejected_before[a] == j as usize);
                                }
                            }
                        }
                    }
                },
            }
            i = i + 1;
        }
        proof {
            assert(all.take(i as int) =~= all);
        }
        (Excludes { matchers }, rejected)
    }

    /// Whether the set excludes the path.
    pub fn is_excluded(&self, path: &str) -> (r: bool)
        ensures
            r == self.excludes(path@),
    {
        let mut k: usize = 0;
        while k < self.matchers.len()
            invariant
                k <= self.matchers@.len(),
                forall|j: int| 0 <= j < k ==> !set_accepts(#[trigger] self.matchers@[j], path@),
            decreases self.matchers@.len() - k,
        {
            if matcher_accepts(&self.matchers[k], path) {
                return true;
            }
            k = k + 1;
        }
        false
    }
}

} // verus!
