use named_tree::tree::Tree;

#[test]
fn named_tree_it_works() {
    let mut tree: Tree<String, i16> = Tree::new(34);
    let root = tree.root();
    tree.insert(root, "bob".to_string(), 13);
    tree.insert(root, "bill".to_string(), 19);
    assert!(tree.parent(root).is_none());
    let mut children: Vec<String> = tree
        .children(root)
        .into_iter()
        .map(|(name, _id)| name.clone())
        .collect();
    children.sort();
    assert_eq!(children, vec!["bill", "bob"]);
    let bob = tree.child(root, &"bob".to_string()).expect("missing child");
    let up = tree.parent(bob).expect("missing parent");
    assert_eq!(tree.data(up).clone(), 34);
    assert_eq!(tree.data(bob).clone(), 13);
    let bill = tree.child(root, &"bill".to_string()).expect("missing child");
    assert_eq!(tree.data(bill).clone(), 19);
    assert!(tree.child(root, &"joe".to_string()).is_none());
}

#[test]
fn new_tree_is_a_lone_root() {
    let tree: Tree<String, u8> = Tree::new(7);
    let root = tree.root();
    assert_eq!(root, 0);
    assert_eq!(*tree.data(root), 7);
    assert_eq!(tree.parent(root), None);
    assert!(tree.children(root).is_empty());
}

#[test]
fn every_child_names_its_parent() {
    let mut tree: Tree<String, u32> = Tree::new(0);
    let root = tree.root();
    let a = tree.insert(root, "a".to_string(), 1);
    let b = tree.insert(a, "b".to_string(), 2);
    let c = tree.insert(a, "c".to_string(), 3);
    let d = tree.insert(root, "d".to_string(), 4);
    for at in [root, a, b, c, d] {
        for (name, child) in tree.children(at) {
            assert_eq!(tree.parent(child), Some(at));
            assert_eq!(tree.child(at, &name), Some(child));
        }
    }
    assert_eq!(tree.children(a).len(), 2);
    assert_eq!(tree.children(root).len(), 2);
    assert_eq!(tree.children(b).len(), 0);
}

#[test]
fn inserted_name_is_taken() {
    let mut tree: Tree<String, u32> = Tree::new(0);
    let root = tree.root();
    assert_eq!(tree.child(root, &"x".to_string()), None);
    let x = tree.insert(root, "x".to_string(), 1);
    assert_eq!(tree.child(root, &"x".to_string()), Some(x));
    assert_eq!(tree.child(root, &"y".to_string()), None);
}

#[test]
fn inserted_data_reads_back() {
    let mut tree: Tree<String, String> = Tree::new("top".to_string());
    let root = tree.root();
    let leaf = tree.insert(root, "leaf".to_string(), "payload".to_string());
    assert_eq!(tree.data(leaf), "payload");
    assert_eq!(tree.data(root), "top");
}

#[test]
fn replaced_data_is_seen_through_every_handle() {
    let mut tree: Tree<String, i32> = Tree::new(1);
    let root = tree.root();
    let leaf = tree.insert(root, "leaf".to_string(), 2);
    let same = tree.child(root, &"leaf".to_string()).unwrap();
    let old = tree.replace_data(leaf, 20);
    assert_eq!(old, 2);
    assert_eq!(*tree.data(same), 20);
    assert_eq!(*tree.data(root), 1);
    assert_eq!(tree.parent(same), Some(root));
}

#[test]
fn path_resolves_last_name_first() {
    let mut tree: Tree<String, u8> = Tree::new(0);
    let root = tree.root();
    let a = tree.insert(root, "a".to_string(), 1);
    let b = tree.insert(a, "b".to_string(), 2);
    let c = tree.insert(b, "c".to_string(), 3);
    let by_path = tree.recursive_get(root, vec!["c".to_string(), "b".to_string(), "a".to_string()]);
    let a2 = tree.child(root, &"a".to_string()).unwrap();
    let b2 = tree.child(a2, &"b".to_string()).unwrap();
    let c2 = tree.child(b2, &"c".to_string()).unwrap();
    assert_eq!(by_path, Some(c2));
    assert_eq!(by_path, Some(c));
    assert_eq!(*tree.data(c2), 3);
    // the same names outermost first lead nowhere
    assert_eq!(
        tree.recursive_get(root, vec!["a".to_string(), "b".to_string(), "c".to_string()]),
        None
    );
    assert_eq!(tree.recursive_get(root, vec![]), Some(root));
    assert_eq!(tree.recursive_get(a, vec!["b".to_string()]), Some(b));
    assert_eq!(tree.recursive_get(root, vec!["zz".to_string(), "a".to_string()]), None);
}

#[test]
fn subtree_is_attached_whole() {
    let mut sub: Tree<String, u8> = Tree::new(10);
    let sroot = sub.root();
    let s1 = sub.insert(sroot, "one".to_string(), 11);
    sub.insert(s1, "two".to_string(), 12);
    sub.insert(sroot, "three".to_string(), 13);

    let mut tree: Tree<String, u8> = Tree::new(0);
    let root = tree.root();
    let a = tree.insert(root, "a".to_string(), 1);
    let id = tree.insert_subtree(a, "sub".to_string(), sub);

    assert_eq!(id, 2);
    assert_eq!(tree.child(a, &"sub".to_string()), Some(id));
    assert_eq!(tree.parent(id), Some(a));
    assert_eq!(*tree.data(id), 10);
    let one = tree.child(id, &"one".to_string()).unwrap();
    assert_eq!(one, 3);
    assert_eq!(tree.parent(one), Some(id));
    assert_eq!(*tree.data(one), 11);
    let two = tree.child(one, &"two".to_string()).unwrap();
    assert_eq!(two, 4);
    assert_eq!(tree.parent(two), Some(one));
    assert_eq!(*tree.data(two), 12);
    let three = tree.child(id, &"three".to_string()).unwrap();
    assert_eq!(three, 5);
    assert_eq!(*tree.data(three), 13);
    assert_eq!(
        tree.recursive_get(root, vec!["two".to_string(), "one".to_string(), "sub".to_string(), "a".to_string()]),
        Some(two)
    );
    assert_eq!(tree.children(root).len(), 1);
}

#[test]
fn numbers_serve_as_names() {
    let mut tree: Tree<u64, &str> = Tree::new("top");
    let root = tree.root();
    let seven = tree.insert(root, 7, "seven");
    let nine = tree.insert(seven, 9, "nine");
    assert_eq!(tree.child(root, &7), Some(seven));
    assert_eq!(tree.child(root, &9), None);
    assert_eq!(tree.recursive_get(root, vec![9, 7]), Some(nine));
    assert_eq!(*tree.data(nine), "nine");
    assert_eq!(tree.len(), 3);
    assert_eq!(tree.degree(root), 1);
    assert_eq!(tree.link(seven, 0), (&9, nine));
    assert_eq!(tree.display_string(), "+ . (top)\n--+ 7 (seven)\n----+ 9 (nine)\n");
}

#[test]
fn every_node_but_the_root_is_a_child_of_its_parent() {
    let mut tree: Tree<String, u32> = Tree::new(0);
    let root = tree.root();
    let a = tree.insert(root, "a".to_string(), 1);
    let b = tree.insert(a, "b".to_string(), 2);
    tree.insert(b, "c".to_string(), 3);
    tree.insert(root, "d".to_string(), 4);
    assert_eq!(tree.parent(root), None);
    for at in 1..tree.len() {
        let up = tree.parent(at).expect("only the root has no parent");
        assert!(up < at);
        let found: Vec<usize> = tree
            .children(up)
            .into_iter()
            .filter(|(_, child)| *child == at)
            .map(|(_, child)| child)
            .collect();
        assert_eq!(found, vec![at]);
    }
}
