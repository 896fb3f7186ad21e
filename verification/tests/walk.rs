use filefile::node::{Node, NodeType};

fn entry(p: &str, d: bool) -> (String, bool) {
    (p.to_string(), d)
}

#[test]
fn walk_reads_directories_depth_first() {
    let mut root = Node::new("/r");
    root.node_type = NodeType::get(true);
    let mut walk = Node::parse_tree(&root);
    let mut asked = Vec::new();
    while let Some(p) = walk.next_read() {
        asked.push(p.clone());
        let listing = match p.as_str() {
            "/r" => vec![entry("/r/a", true), entry("/r/c", false), entry("/r/e", true)],
            "/r/a" => vec![entry("/r/a/b", false), entry("/r/a/x", true)],
            "/r/a/x" => vec![],
            "/r/e" => vec![entry("/r/e/f", false)],
            other => panic!("unexpected read of {}", other),
        };
        walk.provide(listing);
    }
    assert_eq!(asked, vec!["/r", "/r/a", "/r/a/x", "/r/e"]);
    let nodes = walk.finish();
    let names: Vec<&str> = nodes.iter().map(|n| n.basename.as_str()).collect();
    assert_eq!(names, vec!["a", "c", "e"]);
    assert_eq!(nodes[0].node_type, NodeType::DIRECTORY);
    assert_eq!(nodes[0].children.len(), 2);
    assert_eq!(nodes[0].children[1].path, "/r/a/x");
    assert_eq!(nodes[0].children[1].node_type, NodeType::DIRECTORY);
    assert!(nodes[0].children[1].children.is_empty());
    assert_eq!(nodes[1].node_type, NodeType::FILE);
    assert_eq!(nodes[2].children[0].basename, "f");
}

#[test]
fn walk_of_a_file_reads_nothing() {
    let root = Node::new("/r/file");
    let walk = Node::parse_tree(&root);
    assert!(walk.next_read().is_none());
    assert!(walk.finish().is_empty());
}

#[test]
fn children_of_listing() {
    let mut d = Node::new("/d");
    let listing = vec![entry("/d/x", false), entry("/d/y", true)];
    assert!(Node::parse_children(&d, &listing).is_empty());
    d.node_type = NodeType::DIRECTORY;
    let kids = Node::parse_children(&d, &listing);
    assert_eq!(kids.len(), 2);
    assert_eq!(kids[0].basename, "x");
    assert_eq!(kids[1].node_type, NodeType::DIRECTORY);
}
