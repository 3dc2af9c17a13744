use tuliprox_store::dir_tree::{add_dir, dirs_to_delete, find_dir, flatten_tree, mark_has_files, DirNode};

fn sample_tree() -> Vec<DirNode> {
    let mut nodes = vec![DirNode::new_root("/out".to_string())];
    let a = add_dir(&mut nodes, 0, "/out/a".to_string());
    let c = add_dir(&mut nodes, 0, "/out/c".to_string());
    let b = add_dir(&mut nodes, a, "/out/a/b".to_string());
    assert_eq!((a, c, b), (1, 2, 3));
    nodes
}

#[test]
fn new_nodes_carry_their_flags() {
    let root = DirNode::new_root("/r".to_string());
    assert!(root.is_root);
    assert!(!root.has_files);
    assert_eq!(root.parent, None);
    let child = DirNode::new("/r/x".to_string(), Some(0));
    assert!(!child.is_root);
    assert_eq!(child.parent, Some(0));
    assert!(child.children.is_empty());
}

#[test]
fn add_dir_links_parent_and_child_once() {
    let mut nodes = sample_tree();
    assert_eq!(nodes[0].children, vec![1, 2]);
    assert_eq!(nodes[1].children, vec![3]);
    assert_eq!(nodes[3].parent, Some(1));
    // the same directory seen again is neither added nor listed twice
    let again = add_dir(&mut nodes, 1, "/out/a/b".to_string());
    assert_eq!(again, 3);
    assert_eq!(nodes.len(), 4);
    assert_eq!(nodes[1].children, vec![3]);
    assert_eq!(find_dir(&nodes, "/out/c"), Some(2));
    assert_eq!(find_dir(&nodes, "/out/zzz"), None);
}

#[test]
fn flatten_lists_parents_before_children() {
    let nodes = sample_tree();
    assert_eq!(flatten_tree(0, &nodes), vec![0, 1, 2, 3]);
    assert_eq!(flatten_tree(1, &nodes), vec![1, 3]);
    assert_eq!(flatten_tree(9, &nodes), Vec::<usize>::new());
}

#[test]
fn files_mark_the_whole_parent_chain() {
    let mut nodes = sample_tree();
    mark_has_files(&mut nodes, 3);
    assert!(nodes[3].has_files);
    assert!(nodes[1].has_files);
    assert!(nodes[0].has_files);
    assert!(!nodes[2].has_files);
}

#[test]
fn only_empty_non_root_dirs_are_deleted_children_first() {
    let mut nodes = sample_tree();
    let order = flatten_tree(0, &nodes);
    // nothing holds files: everything but the root goes, deepest first
    assert_eq!(dirs_to_delete(&order, &nodes), vec![3, 2, 1]);
    mark_has_files(&mut nodes, 3);
    assert_eq!(dirs_to_delete(&order, &nodes), vec![2]);
}
