use content_tree::codec::{from_json, to_json};
use content_tree::tree::build_root;
use content_tree::{ContentTreeNode, NodeType};

fn mk_file(name: &str, size: u64) -> ContentTreeNode {
    ContentTreeNode::new_file(String::from(name), size)
}

fn mk_dir(name: &str, children: Vec<ContentTreeNode>) -> ContentTreeNode {
    ContentTreeNode::new_directory(String::from(name), children).unwrap()
}

#[test]
fn encodes_file_node_exactly() {
    let f = mk_file("a.txt", 5);
    assert_eq!(
        to_json(&f),
        "{\"name\":\"a.txt\",\"expanded\":true,\"size\":5,\"type\":\"file\",\"children\":[],\"count\":0}"
    );
}

#[test]
fn encodes_small_tree_exactly() {
    let root = build_root(vec![mk_file("a.txt", 5)]).unwrap();
    assert_eq!(
        to_json(&root),
        "{\"name\":\"content\",\"expanded\":true,\"size\":0,\"type\":\"directory\",\"children\":[{\"name\":\"a.txt\",\"expanded\":true,\"size\":5,\"type\":\"file\",\"children\":[],\"count\":0}],\"count\":1}"
    );
}

#[test]
fn round_trip_reconstructs_tree() {
    let root = build_root(vec![
        mk_file("a.txt", 5),
        mk_dir("sub", vec![mk_file("b.txt", 3)]),
    ])
    .unwrap();
    let json = to_json(&root);
    let back = from_json(&json).unwrap();
    assert_eq!(back, root);
}

#[test]
fn round_trip_escapes_names() {
    let f = mk_file("we\"ird\\name", 7);
    let json = to_json(&f);
    assert!(json.contains("we\\\"ird\\\\name"));
    let back = from_json(&json).unwrap();
    assert_eq!(back, f);
}

#[test]
fn round_trip_keeps_large_sizes() {
    let f = mk_file("big", u64::MAX);
    let json = to_json(&f);
    assert!(json.contains("18446744073709551615"));
    let back = from_json(&json).unwrap();
    assert_eq!(back, f);
}

#[test]
fn rejects_malformed_text() {
    assert!(from_json("").is_none());
    assert!(from_json("garbage").is_none());
    assert!(from_json("{\"name\":\"x\"}").is_none());
    assert!(from_json("{\"name\":\"a\",\"expanded\":maybe,\"size\":0,\"type\":\"file\",\"children\":[],\"count\":0}").is_none());
}

#[test]
fn rejects_trailing_text() {
    let f = mk_file("a", 1);
    let mut json = to_json(&f);
    json.push(' ');
    assert!(from_json(&json).is_none());
}

#[test]
fn output_is_standard_json() {
    let root = build_root(vec![mk_file("a.txt", 5)]).unwrap();
    let json = to_json(&root);
    let v: serde_json::Value = serde_json::from_str(&json).unwrap();
    assert_eq!(v["name"], "content");
    assert_eq!(v["expanded"], true);
    assert_eq!(v["size"], 0);
    assert_eq!(v["type"], "directory");
    assert_eq!(v["count"], 1);
    let children = v["children"].as_array().unwrap();
    assert_eq!(children.len(), 1);
    assert_eq!(children[0]["name"], "a.txt");
    assert_eq!(children[0]["size"], 5);
    assert_eq!(children[0]["type"], "file");
    assert_eq!(children[0]["count"], 0);
}

#[test]
fn node_type_tags_differ() {
    let d = mk_dir("d", Vec::new());
    let f = mk_file("d", 0);
    assert_eq!(d.node_type, NodeType::Directory);
    assert_eq!(f.node_type, NodeType::File);
    assert!(to_json(&d).contains("\"type\":\"directory\""));
    assert!(to_json(&f).contains("\"type\":\"file\""));
}
