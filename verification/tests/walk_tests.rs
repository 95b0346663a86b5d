use named_tree::exclude::Excludes;
use named_tree::tree::Tree;
use named_tree::walk::{reverse_of, starts_with, BuildError, Builder, Fault, WalkEntry};

fn entry(path: &str) -> WalkEntry<usize> {
    let rel: Vec<String> = path
        .split('/')
        .filter(|part| !part.is_empty() && *part != ".")
        .map(|part| part.to_string())
        .collect();
    let data = match rel.last() {
        Some(name) => name.len(),
        None => 0,
    };
    WalkEntry { path: path.to_string(), rel, data }
}

fn names(tree: &Tree<String, usize>, at: usize) -> Vec<String> {
    let mut out: Vec<String> = tree.children(at).into_iter().map(|(name, _)| name).collect();
    out.sort();
    out
}

fn walk() -> Vec<WalkEntry<usize>> {
    vec![
        entry("."),
        entry("./a"),
        entry("./a/123"),
        entry("./b"),
        entry("./b/456"),
        entry("./b/789"),
        entry("./b/789/abc"),
        entry("./c"),
    ]
}

#[test]
fn fs_tree_it_works() {
    let tree = Tree::construct(0, walk(), vec![]).unwrap();
    let root = tree.root();
    assert_eq!(names(&tree, root), vec!["a", "b", "c"]);
    let a = tree.child(root, &"a".to_string()).unwrap();
    assert_eq!(names(&tree, a), vec!["123"]);
    let b = tree.child(root, &"b".to_string()).unwrap();
    assert_eq!(names(&tree, b), vec!["456", "789"]);
    let deep = tree
        .recursive_get(root, vec!["abc".to_string(), "789".to_string(), "b".to_string()])
        .unwrap();
    assert_eq!(*tree.data(deep), 3);
    assert_eq!(*tree.data(root), 0);
    assert_eq!(*tree.data(a), 1);
    println!("{}", tree.display_string());
    println!("{:?}", tree.debug_string());
    assert_eq!(
        tree.display_string(),
        "+ . (0)\n--+ a (1)\n----+ 123 (3)\n--+ b (1)\n----+ 456 (3)\n----+ 789 (3)\n------+ abc (3)\n--+ c (1)\n"
    );
}

#[test]
fn excluded_entry_is_pruned_with_what_is_below() {
    let tree = Tree::construct(0, walk(), vec!["**/b/789"]).unwrap();
    let root = tree.root();
    assert_eq!(names(&tree, root), vec!["a", "b", "c"]);
    let a = tree.child(root, &"a".to_string()).unwrap();
    assert_eq!(names(&tree, a), vec!["123"]);
    let b = tree.child(root, &"b".to_string()).unwrap();
    assert_eq!(names(&tree, b), vec!["456"]);
    assert_eq!(tree.child(b, &"789".to_string()), None);
    assert_eq!(
        tree.recursive_get(root, vec!["abc".to_string(), "789".to_string(), "b".to_string()]),
        None
    );
}

#[test]
fn excluded_root_leaves_a_lone_root() {
    let tree = Tree::construct(5, walk(), vec!["."]).unwrap();
    assert!(tree.children(tree.root()).is_empty());
    assert_eq!(*tree.data(tree.root()), 5);
}

#[test]
fn child_before_parent_is_a_fault() {
    let entries = vec![entry("."), entry("./b/456"), entry("./b")];
    let r = Tree::construct(0, entries, vec![]);
    assert_eq!(
        r.err(),
        Some(BuildError { entry: 1, fault: Fault::MissingParent })
    );
}

#[test]
fn entry_below_an_earlier_pruned_one_is_a_fault() {
    let entries = vec![entry("."), entry("./x"), entry("./y"), entry("./x/1")];
    let r = Tree::construct(0, entries, vec!["**/x", "**/y"]);
    assert_eq!(
        r.err(),
        Some(BuildError { entry: 3, fault: Fault::MissingParent })
    );
}

#[test]
fn same_entry_twice_is_a_fault() {
    let entries = vec![entry("."), entry("./a"), entry("./a")];
    let r = Tree::construct(0, entries, vec![]);
    assert_eq!(
        r.err(),
        Some(BuildError { entry: 2, fault: Fault::DuplicateName })
    );
}

#[test]
fn malformed_pattern_is_passed_over() {
    let tree = Tree::construct(0, walk(), vec!["a[", "**/b/789"]).unwrap();
    let root = tree.root();
    assert_eq!(names(&tree, root), vec!["a", "b", "c"]);
    let a = tree.child(root, &"a".to_string()).unwrap();
    assert_eq!(names(&tree, a), vec!["123"]);
    let b = tree.child(root, &"b".to_string()).unwrap();
    assert_eq!(names(&tree, b), vec!["456"]);
}

#[test]
fn compile_reports_the_unusable_patterns() {
    let (set, unusable) = Excludes::compile(vec!["*.rs", "a[", "{a,b", "**/target"]);
    assert_eq!(unusable, vec![1, 2]);
    assert!(set.is_excluded("src/lib.rs"));
    assert!(set.is_excluded("x/target"));
    assert!(!set.is_excluded("src/lib.txt"));
    let (none, unusable) = Excludes::compile(vec![]);
    assert!(unusable.is_empty());
    assert!(!none.is_excluded("anything"));
}

#[test]
fn builder_takes_entries_one_by_one() {
    let mut b: Builder<u8> = Builder::new(0);
    assert_eq!(b.add(vec![], 9, false), Ok(()));
    assert_eq!(b.add(vec!["a".to_string()], 1, false), Ok(()));
    assert_eq!(b.add(vec!["skip".to_string()], 2, true), Ok(()));
    assert!(b.is_pruned(&vec!["skip".to_string(), "below".to_string()]));
    assert!(b.is_pruned(&vec!["skip".to_string()]));
    assert!(!b.is_pruned(&vec!["a".to_string()]));
    assert_eq!(b.add(vec!["skip".to_string(), "below".to_string()], 3, false), Ok(()));
    assert_eq!(b.add(vec!["a".to_string(), "x".to_string()], 4, false), Ok(()));
    assert_eq!(b.add(vec!["a".to_string(), "x".to_string()], 5, false), Err(Fault::DuplicateName));
    assert_eq!(b.add(vec!["q".to_string(), "x".to_string()], 6, false), Err(Fault::MissingParent));
    let tree = b.finish();
    let root = tree.root();
    assert_eq!(*tree.data(root), 0);
    assert_eq!(tree.children(root).len(), 1);
    let a = tree.child(root, &"a".to_string()).unwrap();
    let x = tree.child(a, &"x".to_string()).unwrap();
    assert_eq!(*tree.data(x), 4);
    assert_eq!(tree.child(root, &"skip".to_string()), None);
}

#[test]
fn reverse_and_prefix() {
    assert_eq!(reverse_of(vec![1, 2, 3]), vec![3, 2, 1]);
    assert_eq!(reverse_of(Vec::<u8>::new()), Vec::<u8>::new());
    let p = vec!["a".to_string(), "b".to_string()];
    assert!(starts_with(&p, &vec!["a".to_string()]));
    assert!(starts_with(&p, &p));
    assert!(starts_with(&p, &vec![]));
    assert!(!starts_with(&p, &vec!["b".to_string()]));
    assert!(!starts_with(&vec!["a".to_string()], &p));
}
