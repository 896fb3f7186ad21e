use filefile::dfs::{sort_by_name_desc, text_before, DfsIterator};
use filefile::node::{Node, NodeType};

fn dir(name: &str, kids: Vec<Node>) -> Node {
    let mut n = Node::new(name);
    n.node_type = NodeType::DIRECTORY;
    n.add_children(kids);
    n
}

#[test]
fn text_order_matches_std() {
    let words = ["", "a", "b", "ab", "aa", "B", "é", "z", "aé", "\u{10000}", "\u{ffff}"];
    for a in words {
        for b in words {
            assert_eq!(text_before(a, b), a < b, "{:?} < {:?}", a, b);
            assert_eq!(text_before(a, b), a.to_string() < b.to_string());
        }
    }
}

#[test]
fn sort_is_descending_and_stable() {
    let mut x1 = Node::new("x");
    x1.path = "first".to_string();
    let mut x2 = Node::new("x");
    x2.path = "second".to_string();
    let nodes = vec![Node::new("b"), x1, Node::new("c"), x2, Node::new("a")];
    let sorted = sort_by_name_desc(&nodes);
    let names: Vec<&str> = sorted.iter().map(|n| n.basename.as_str()).collect();
    assert_eq!(names, vec!["x", "x", "c", "b", "a"]);
    assert_eq!(sorted[0].path, "first");
    assert_eq!(sorted[1].path, "second");
}

#[test]
fn dfs_visits_depth_first_in_name_order() {
    let tree = dir(
        "root",
        vec![
            dir("b", vec![Node::new("b2"), Node::new("b1")]),
            Node::new("c"),
            dir("a", vec![Node::new("a1")]),
        ],
    );
    let mut it = DfsIterator::new(tree);
    let mut seen = Vec::new();
    while let Some(n) = it.next() {
        seen.push(n.basename.clone());
    }
    assert_eq!(seen, vec!["root", "a", "a1", "b", "b1", "b2", "c"]);
    assert!(it.next().is_none());
}

#[test]
fn dfs_leaf_children_come_in_ascending_order() {
    let tree = dir("r", vec![Node::new("c"), Node::new("a"), Node::new("b")]);
    let mut it = DfsIterator::new(tree);
    let names: Vec<String> = std::iter::from_fn(|| it.next()).map(|n| n.basename).collect();
    assert_eq!(names, vec!["r", "a", "b", "c"]);
    assert!(it.next().is_none());
}
