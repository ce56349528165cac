use synless::forest::{Forest, NodeIndex};
use synless::json_parser::{parse_json, Json};
use synless::json_tree::{json_to_tree, JsonConstruct, JsonNode};

fn construct(f: &Forest<JsonNode>, n: NodeIndex) -> JsonConstruct {
    f.data(n).construct
}

fn text(f: &Forest<JsonNode>, n: NodeIndex) -> Option<String> {
    f.data(n).text.clone()
}

fn child(f: &Forest<JsonNode>, n: NodeIndex, i: usize) -> NodeIndex {
    f.nth_child(n, i).unwrap()
}

#[test]
fn test_json_to_tree_leaf() {
    let (f, root) = json_to_tree(&Json::Null);
    assert_eq!(construct(&f, root), JsonConstruct::Root);
    assert_eq!(f.num_children(root), 1);
    let top = child(&f, root, 0);
    assert_eq!(construct(&f, top), JsonConstruct::Null);
    assert_eq!(f.num_children(top), 0);
    assert_eq!(f.parent(top), Some(root));
    assert_eq!(f.parent(root), None);
}

#[test]
fn test_json_to_tree_nested() {
    let json = parse_json("f", "[1, \"a\", {\"k\": [true, false]}]").unwrap();
    let (f, root) = json_to_tree(&json);
    let arr = child(&f, root, 0);
    assert_eq!(construct(&f, arr), JsonConstruct::Array);
    assert_eq!(text(&f, arr), None);
    assert_eq!(f.num_children(arr), 3);

    let one = child(&f, arr, 0);
    assert_eq!(construct(&f, one), JsonConstruct::Number);
    assert_eq!(text(&f, one), Some("1".to_string()));
    let a = child(&f, arr, 1);
    assert_eq!(construct(&f, a), JsonConstruct::String);
    assert_eq!(text(&f, a), Some("a".to_string()));

    let obj = child(&f, arr, 2);
    assert_eq!(construct(&f, obj), JsonConstruct::Object);
    assert_eq!(f.num_children(obj), 1);
    let pair = child(&f, obj, 0);
    assert_eq!(construct(&f, pair), JsonConstruct::ObjectPair);
    assert_eq!(f.num_children(pair), 2);
    let key = child(&f, pair, 0);
    assert_eq!(construct(&f, key), JsonConstruct::Key);
    assert_eq!(text(&f, key), Some("k".to_string()));
    let val = child(&f, pair, 1);
    assert_eq!(construct(&f, val), JsonConstruct::Array);
    assert_eq!(construct(&f, child(&f, val, 0)), JsonConstruct::True);
    assert_eq!(construct(&f, child(&f, val, 1)), JsonConstruct::False);
    assert_eq!(f.parent(val), Some(pair));
}

#[test]
fn test_json_to_tree_empty_containers() {
    let (f, root) = json_to_tree(&Json::Object(vec![]));
    let top = child(&f, root, 0);
    assert_eq!(construct(&f, top), JsonConstruct::Object);
    assert_eq!(f.num_children(top), 0);
    let (f, root) = json_to_tree(&Json::Array(vec![]));
    let top = child(&f, root, 0);
    assert_eq!(construct(&f, top), JsonConstruct::Array);
    assert_eq!(f.num_children(top), 0);
}
