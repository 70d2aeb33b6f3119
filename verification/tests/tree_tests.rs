use content_tree::tree::{build_root, entry_name};
use content_tree::{ContentTreeNode, NodeType, TraversalErrorKind};

fn file(name: &str, size: u64) -> ContentTreeNode {
    ContentTreeNode::new_file(String::from(name), size)
}

fn dir(name: &str, children: Vec<ContentTreeNode>) -> ContentTreeNode {
    ContentTreeNode::new_directory(String::from(name), children).unwrap()
}

#[test]
fn empty_root_has_no_children_and_zero_count() {
    let root = build_root(Vec::new()).unwrap();
    assert_eq!(root.name, "content");
    assert_eq!(root.node_type, NodeType::Directory);
    assert_eq!(root.size, 0);
    assert!(root.expanded);
    assert_eq!(root.count, 0);
    assert!(root.children.is_empty());
}

#[test]
fn file_nodes_have_zero_count_and_no_children() {
    let f = file("a.txt", 5);
    assert_eq!(f.count, 0);
    assert!(f.children.is_empty());
    assert_eq!(f.node_type, NodeType::File);
    assert_eq!(f.size, 5);
    assert!(f.expanded);
}

#[test]
fn synthetic_root_is_named_content() {
    let root = build_root(vec![file("a", 1)]).unwrap();
    assert_eq!(root.name, "content");
    assert_eq!(root.node_type, NodeType::Directory);
    assert_eq!(root.size, 0);
    assert!(root.expanded);
}

#[test]
fn scenario_two_files_one_subdirectory() {
    let a = file("a.txt", 5);
    let sub = dir("sub", vec![file("b.txt", 3)]);
    assert_eq!(sub.count, 1);
    assert_eq!(sub.size, 0);
    let root = build_root(vec![a, sub]).unwrap();
    assert_eq!(root.count, 3);
    assert_eq!(root.children.len(), 2);
    assert_eq!(root.children[0].name, "a.txt");
    assert_eq!(root.children[0].count, 0);
    assert_eq!(root.children[0].size, 5);
    assert_eq!(root.children[0].node_type, NodeType::File);
    assert_eq!(root.children[1].name, "sub");
    assert_eq!(root.children[1].count, 1);
    assert_eq!(root.children[1].children.len(), 1);
    assert_eq!(root.children[1].children[0].name, "b.txt");
    assert_eq!(root.children[1].children[0].size, 3);
    assert_eq!(root.children[1].children[0].count, 0);
}

#[test]
fn directory_count_aggregates_descendants() {
    let d = dir("d", vec![dir("e", vec![file("x", 1), file("y", 2)]), file("z", 3)]);
    assert_eq!(d.count, 4);
    assert_eq!(d.size, 0);
}

#[test]
fn empty_directory_node_has_zero_count() {
    let d = dir("empty", Vec::new());
    assert_eq!(d.count, 0);
    assert!(d.children.is_empty());
}

#[test]
fn entry_name_accepts_decoded_names() {
    assert_eq!(entry_name(Some(String::from("a.txt"))).unwrap(), "a.txt");
}

#[test]
fn entry_name_rejects_undecodable_names() {
    let e = entry_name(None).unwrap_err();
    assert_eq!(e.kind, TraversalErrorKind::InvalidName);
}
