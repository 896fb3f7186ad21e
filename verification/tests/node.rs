use filefile::node::{
    convert_node, convert_nodes, convert_value, filefile_text, nodes_of_text, ConvertError, Node,
    NodeType,
};
use filefile::operations::{OpError, Operation};
use filefile::yaml::YamlValue;

fn parse(yaml: &str) -> Vec<Node> {
    nodes_of_text(yaml).expect("yaml parse").unwrap()
}

fn parse_err(yaml: &str) -> ConvertError {
    nodes_of_text(yaml).expect("yaml parse").unwrap_err()
}

#[test]
fn string_map_value_becomes_file_with_contents() {
    let nodes = parse("foo: \"bar\"\n");
    assert_eq!(nodes.len(), 1);
    assert_eq!(nodes[0].basename, "foo");
    assert_eq!(nodes[0].node_type, NodeType::FILE);
    assert_eq!(nodes[0].contents.as_deref(), Some("bar"));
}

#[test]
fn null_map_value_becomes_empty_file() {
    let nodes = parse("foo:\n");
    assert_eq!(nodes.len(), 1);
    assert_eq!(nodes[0].basename, "foo");
    assert_eq!(nodes[0].node_type, NodeType::FILE);
    assert!(nodes[0].contents.is_none());
}

#[test]
fn nested_mapping_becomes_directory_with_children() {
    let nodes = parse("outer:\n  inner: \"x\"\n");
    assert_eq!(nodes.len(), 1);
    assert_eq!(nodes[0].basename, "outer");
    assert_eq!(nodes[0].node_type, NodeType::DIRECTORY);
    assert_eq!(nodes[0].children.len(), 1);
    assert_eq!(nodes[0].children[0].basename, "inner");
    assert_eq!(nodes[0].children[0].contents.as_deref(), Some("x"));
}

#[test]
fn tagged_value_attaches_operation() {
    let nodes = parse("repo: !git https://example.com/x.git\n");
    assert_eq!(nodes.len(), 1);
    assert_eq!(nodes[0].basename, "repo");
    assert!(matches!(nodes[0].op, Some(Operation::Git(_))));
}

#[test]
fn readme_example_converts() {
    let nodes = parse(
        "hello:\n  world: \"contents of the file\"\n  here:\n    I: \"am\"\n  empty_file:\nscripted:\n  marker: !sh \"printf hi\"\n",
    );
    assert_eq!(nodes.len(), 2);
    let hello = &nodes[0];
    assert_eq!(hello.node_type, NodeType::DIRECTORY);
    assert_eq!(hello.children.len(), 3);
    assert_eq!(hello.children[0].basename, "world");
    assert_eq!(hello.children[1].node_type, NodeType::DIRECTORY);
    assert_eq!(hello.children[1].children[0].contents.as_deref(), Some("am"));
    assert_eq!(hello.children[2].basename, "empty_file");
    assert!(hello.children[2].contents.is_none());
    let marker = &nodes[1].children[0];
    assert_eq!(marker.op, Some(Operation::Sh("printf hi".into())));
    assert_eq!(marker.node_type, NodeType::FILE);
}

#[test]
fn non_mapping_root_gives_nothing() {
    assert!(parse("- a\n- b\n").is_empty());
    assert!(parse("just text\n").is_empty());
}

#[test]
fn other_values_give_plain_files() {
    let nodes = parse("n: 3\nb: true\nl: [1, 2]\n");
    assert_eq!(nodes.len(), 3);
    for n in &nodes {
        assert_eq!(n.node_type, NodeType::FILE);
        assert!(n.contents.is_none());
        assert!(n.op.is_none());
        assert!(n.children.is_empty());
    }
}

#[test]
fn refused_documents() {
    assert!(matches!(parse_err("1: x\n"), ConvertError::KeyNotText));
    assert!(matches!(parse_err("a:\n  2: x\n"), ConvertError::KeyNotText));
    assert!(matches!(
        parse_err("a: !make all\n"),
        ConvertError::BadOperation(OpError::UnknownTag(_))
    ));
    assert!(matches!(parse_err("a: !git\n"), ConvertError::BadOperation(OpError::MissingUrl)));
    // a tagged key is read as its text
    let nodes = parse("!k name: x\n");
    assert_eq!(nodes[0].basename, "name");
}

#[test]
fn key_with_path_keeps_final_name() {
    let nodes = parse("a/b: x\n..: y\n");
    assert_eq!(nodes[0].path, "a/b");
    assert_eq!(nodes[0].basename, "b");
    assert_eq!(nodes[1].basename, "Could not get the basename.");
}

#[test]
fn new_node_and_children() {
    let mut n = Node::new("dir/sub");
    assert_eq!(n.basename, "sub");
    assert_eq!(n.path_as_str(), "dir/sub");
    assert_eq!(n.node_type, NodeType::FILE);
    n.add_children(Vec::new());
    assert_eq!(n.node_type, NodeType::FILE);
    n.add_child(Node::new("x"));
    assert_eq!(n.node_type, NodeType::DIRECTORY);
    n.add_children(vec![Node::new("y"), Node::new("z")]);
    let names: Vec<&str> = n.children.iter().map(|c| c.basename.as_str()).collect();
    assert_eq!(names, vec!["x", "y", "z"]);
    n.prefix_path("/root");
    assert_eq!(n.path, "/root/dir/sub");
    assert_eq!(NodeType::get(true), NodeType::DIRECTORY);
    assert_eq!(NodeType::get(false), NodeType::FILE);
    let e = Node::from_entry("/t/d", true);
    assert_eq!(e.node_type, NodeType::DIRECTORY);
    assert_eq!(e.basename, "d");
    let c = n.clone();
    assert_eq!(c.children.len(), 3);
    assert_eq!(c.path, n.path);
}

fn dir(name: &str, kids: Vec<Node>) -> Node {
    let mut n = Node::from_entry(name, true);
    n.add_children(kids);
    n
}

#[test]
fn convert_nodes_writes_mapping_form() {
    let tree = vec![dir("a", vec![Node::new("b")]), Node::new("c")];
    let v = convert_nodes(tree);
    match v {
        YamlValue::Mapping(es) => {
            assert_eq!(es.len(), 2);
            assert!(matches!(&es[0].0, YamlValue::Text(k) if k == "a"));
            match &es[0].1 {
                YamlValue::Mapping(inner) => {
                    assert!(matches!(&inner[0].0, YamlValue::Text(k) if k == "b"));
                    assert!(matches!(inner[0].1, YamlValue::Null));
                }
                other => panic!("{:?}", other),
            }
            assert!(matches!(&es[1].0, YamlValue::Text(k) if k == "c"));
            assert!(matches!(es[1].1, YamlValue::Null));
        }
        other => panic!("{:?}", other),
    }
    assert!(matches!(convert_node(Node::new("f")), YamlValue::Null));
}

#[test]
fn convert_nodes_keeps_one_entry_per_name() {
    let v = convert_nodes(vec![Node::new("x"), dir("y", vec![]), dir("x", vec![])]);
    match v {
        YamlValue::Mapping(es) => {
            assert_eq!(es.len(), 2);
            assert!(matches!(&es[0].0, YamlValue::Text(k) if k == "x"));
            assert!(matches!(&es[0].1, YamlValue::Mapping(m) if m.is_empty()));
        }
        other => panic!("{:?}", other),
    }
}

#[test]
fn written_tree_reads_back() {
    let tree = vec![dir("a", vec![Node::new("b"), dir("d", vec![])]), Node::new("c")];
    let back = convert_value(&convert_nodes(tree)).unwrap();
    assert_eq!(back.len(), 2);
    assert_eq!(back[0].basename, "a");
    assert_eq!(back[0].path, "a");
    assert_eq!(back[0].node_type, NodeType::DIRECTORY);
    assert_eq!(back[0].children[0].basename, "b");
    assert_eq!(back[0].children[0].node_type, NodeType::FILE);
    assert_eq!(back[0].children[1].node_type, NodeType::DIRECTORY);
    assert!(back[0].children[1].children.is_empty());
    assert_eq!(back[1].basename, "c");
    assert_eq!(back[1].node_type, NodeType::FILE);
}

#[test]
fn text_that_is_not_yaml_is_refused() {
    assert!(nodes_of_text("a: [1, 2").is_none());
    assert!(nodes_of_text("a: b\n  - c: [").is_none());
}

#[test]
fn yaml_value_read_from_text() {
    let nodes = parse("a: 1\nb: true\nc: !sh echo hi\n");
    assert_eq!(nodes.len(), 3);
    assert_eq!(nodes[0].contents, None);
    assert_eq!(nodes[1].contents, None);
    assert!(matches!(&nodes[2].op, Some(Operation::Sh(c)) if c == "echo hi"));
    assert!(convert_value(&YamlValue::Null).unwrap().is_empty());
    assert!(YamlValue::Mapping(vec![]).is_mapping());
    assert!(!YamlValue::Null.is_mapping());
}

#[test]
fn filefile_text_of_a_tree() {
    let tree = vec![dir("a", vec![Node::new("b")]), Node::new("c")];
    let text = filefile_text(tree).unwrap();
    assert_eq!(text, "a:\n  b: null\nc: null\n");
    let back = parse(&text);
    assert_eq!(back.len(), 2);
    assert_eq!(back[0].basename, "a");
    assert_eq!(back[0].node_type, NodeType::DIRECTORY);
    assert_eq!(back[0].children[0].basename, "b");
    assert_eq!(back[1].basename, "c");
    assert_eq!(back[1].node_type, NodeType::FILE);
    assert_eq!(filefile_text(vec![]).unwrap(), "{}\n");
}
