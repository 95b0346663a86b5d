use named_tree::tree::Tree;

fn small() -> Tree<String, i16> {
    let mut tree: Tree<String, i16> = Tree::new(34);
    let root = tree.root();
    tree.insert(root, "bob".to_string(), 13);
    tree.insert(root, "bill".to_string(), 19);
    tree
}

#[test]
fn debug_text_holds_names_and_values() {
    let text = small().debug_string();
    assert!(text.contains("bob"));
    assert!(text.contains("bill"));
    assert!(text.contains("34"));
    assert!(text.contains("13"));
    assert!(text.contains("19"));
    assert_eq!(text, "(34 \"bob\" -> (13 ) \"bill\" -> (19 ) )");
}

#[test]
fn display_text_has_a_line_per_node() {
    let text = small().display_string();
    assert_eq!(text, "+ . (34)\n--+ bob (13)\n--+ bill (19)\n");
    assert_eq!(text.lines().count(), 3);
}

#[test]
fn display_text_indents_by_depth() {
    let mut tree: Tree<String, String> = Tree::new("r".to_string());
    let root = tree.root();
    let a = tree.insert(root, "a".to_string(), "x".to_string());
    let b = tree.insert(a, "b".to_string(), "y".to_string());
    tree.insert(b, "c".to_string(), "z".to_string());
    tree.insert(root, "d".to_string(), "w".to_string());
    assert_eq!(
        tree.display_string(),
        "+ . (r)\n--+ a (x)\n----+ b (y)\n------+ c (z)\n--+ d (w)\n"
    );
    assert_eq!(
        tree.debug_string(),
        "(\"r\" \"a\" -> (\"x\" \"b\" -> (\"y\" \"c\" -> (\"z\" ) ) ) \"d\" -> (\"w\" ) )"
    );
}

#[test]
fn outline_is_put_together_from_the_given_texts() {
    let tree = small();
    let names = vec![vec!["B".to_string(), "b".to_string()], vec![], vec![]];
    let data = vec!["root".to_string(), "one".to_string(), "two".to_string()];
    assert_eq!(tree.outline_with(&names, &data), "+ . (root)\n--+ B (one)\n--+ b (two)\n");
    assert_eq!(tree.dump_with(&names, &data), "(root B -> (one ) b -> (two ) )");
    let mut out = String::from(">");
    tree.fmt_indent(1, "----", "here", &names, &data, &mut out);
    assert_eq!(out, ">----+ here (one)\n");
    let mut out = String::from(">");
    tree.dump_into(2, &names, &data, &mut out);
    assert_eq!(out, ">(two )");
    let (n, d) = tree.display_texts();
    assert_eq!(n, vec![vec!["bob".to_string(), "bill".to_string()], vec![], vec![]]);
    assert_eq!(d, vec!["34".to_string(), "13".to_string(), "19".to_string()]);
    let (n, d) = tree.debug_texts();
    assert_eq!(n, vec![vec!["\"bob\"".to_string(), "\"bill\"".to_string()], vec![], vec![]]);
    assert_eq!(d, vec!["34".to_string(), "13".to_string(), "19".to_string()]);
}
