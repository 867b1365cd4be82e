use lsn::tree::Tree;

#[test]
fn tree_insert_links_parent_and_child() {
    let mut tree: Tree<&str> = Tree::new();
    let root = tree.insert("root", None);
    assert_eq!(root, 0);
    let child = tree.insert("child", Some(root));
    assert_eq!(child, 1);

    let r = tree.get(root).unwrap();
    assert_eq!(r.data, "root");
    assert_eq!(r.parent, None);
    assert_eq!(r.children, vec![child]);

    let c = tree.get(child).unwrap();
    assert_eq!(c.data, "child");
    assert_eq!(c.parent, Some(root));
    assert!(c.children.is_empty());

    assert!(tree.get(7).is_none());
}

#[test]
fn tree_get_mut_swaps_the_data() {
    let mut tree: Tree<String> = Tree::new();
    let id = tree.insert("before".to_string(), None);
    let mut data = "after".to_string();
    assert!(tree.get_mut(id, &mut data));
    assert_eq!(data, "before");
    assert_eq!(tree.get(id).unwrap().data, "after");
    assert!(!tree.get_mut(9, &mut data));
}
