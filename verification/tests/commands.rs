use filefile::commands::{generate_args, is_remote, Action, ApplyCommand};
use filefile::node::{Node, NodeType};
use filefile::operations::Operation;
use filefile::paths::PathError;

fn file(name: &str, text: Option<&str>) -> Node {
    let mut n = Node::new(name);
    n.contents = text.map(|t| t.to_string());
    n
}

fn dir(name: &str, kids: Vec<Node>) -> Node {
    let mut n = Node::new(name);
    n.node_type = NodeType::DIRECTORY;
    n.add_children(kids);
    n
}

fn with_op(name: &str, op: Operation) -> Node {
    let mut n = Node::new(name);
    n.op = Some(op);
    n
}

fn cmd(input: &str, allow: bool) -> ApplyCommand {
    ApplyCommand { path: "/root".to_string(), input: input.to_string(), allow_remote_ops: allow }
}

#[test]
fn remote_inputs() {
    assert!(is_remote("http://example.com/Filefile.yaml"));
    assert!(is_remote("https://example.com/Filefile.yaml"));
    assert!(!is_remote("Filefile.yaml"));
    assert!(!is_remote("/tmp/http://x"));
    assert!(!is_remote("HTTP://x"));
    assert!(!is_remote("http:/x"));
}

#[test]
fn plan_builds_nested_dirs_and_files() {
    let nodes = vec![dir(
        "hello",
        vec![
            file("world", Some("contents of the file")),
            dir("here", vec![file("I", Some("am"))]),
            file("empty_file", None),
        ],
    )];
    let steps = cmd("Filefile.yaml", false).plan(&nodes);
    let want = [
        "mkdir /root/hello",
        "write /root/hello/world contents of the file",
        "mkdir /root/hello/here",
        "write /root/hello/here/I am",
        "write /root/hello/empty_file ",
    ];
    let got: Vec<String> = steps
        .iter()
        .map(|a| match a {
            Action::CreateDir(p) => format!("mkdir {}", p),
            Action::WriteFile(p, t) => format!("write {} {}", p, t),
            other => panic!("{:?}", other),
        })
        .collect();
    assert_eq!(got, want);
}

#[test]
fn node_with_op_is_only_its_operation() {
    let nodes = vec![with_op("marker", Operation::Sh("printf hi > marker".into()))];
    let steps = cmd("Filefile.yaml", false).plan(&nodes);
    assert_eq!(steps.len(), 1);
    match &steps[0] {
        Action::RunOperation(op, p) => {
            assert_eq!(op, &Operation::Sh("printf hi > marker".into()));
            assert_eq!(p, "/root/marker");
        }
        other => panic!("{:?}", other),
    }
}

#[test]
fn remote_operations_are_refused_unless_allowed() {
    let nodes = vec![
        file("a", Some("1")),
        with_op("repo", Operation::Git("https://example.com/x.git".into())),
        file("b", Some("2")),
    ];
    let steps = cmd("https://example.com/Filefile.yaml", false).plan(&nodes);
    assert_eq!(steps.len(), 2);
    assert!(matches!(&steps[0], Action::WriteFile(p, _) if p == "/root/a"));
    assert!(matches!(&steps[1], Action::Refuse(Operation::Git(_))));

    let steps = cmd("https://example.com/Filefile.yaml", true).plan(&nodes);
    assert_eq!(steps.len(), 3);
    assert!(matches!(&steps[1], Action::RunOperation(Operation::Git(_), p) if p == "/root/repo"));

    let steps = cmd("/tmp/Filefile.yaml", false).plan(&nodes);
    assert_eq!(steps.len(), 3);
    assert!(steps.iter().all(|s| !matches!(s, Action::Refuse(_))));
}

#[test]
fn refusal_deep_in_tree_stops_everything_after() {
    let nodes = vec![
        dir("d", vec![with_op("s", Operation::Sh("ls".into())), file("after", None)]),
        file("later", None),
    ];
    let steps = cmd("http://h/F", false).plan(&nodes);
    assert_eq!(steps.len(), 2);
    assert!(matches!(&steps[0], Action::CreateDir(p) if p == "/root/d"));
    assert!(matches!(&steps[1], Action::Refuse(Operation::Sh(_))));
}

#[test]
fn ops_allowed_cases() {
    assert!(cmd("Filefile.yaml", false).ops_allowed());
    assert!(!cmd("http://h/F", false).ops_allowed());
    assert!(cmd("http://h/F", true).ops_allowed());
}

#[test]
fn command_construction() {
    let c = ApplyCommand::from_subcommand(None, None, "/work", true, false).unwrap();
    assert_eq!(c.path, "/work");
    assert_eq!(c.input, "/work/Filefile.yaml");
    assert!(!c.allow_remote_ops);
    let c = ApplyCommand::from_subcommand(Some("/p".into()), Some("/f.yaml".into()), "/work", true, true)
        .unwrap();
    assert_eq!(c.path, "/p");
    assert_eq!(c.input, "/f.yaml");
    assert!(c.allow_remote_ops);
    assert!(matches!(
        ApplyCommand::from_subcommand(Some("/nowhere".into()), None, "/work", false, false),
        Err(PathError::DoesNotExist(p)) if p == "/nowhere"
    ));
    assert!(matches!(
        ApplyCommand::from_subcommand(None, None, "/work", false, true),
        Err(PathError::DoesNotExist(p)) if p == "/work"
    ));
    let c = ApplyCommand::from_file("F.yaml", "/work", true, false).unwrap();
    assert_eq!(c.path, "/work");
    assert_eq!(c.input, "F.yaml");
    assert!(matches!(
        ApplyCommand::from_file("F.yaml", "/gone", false, false),
        Err(PathError::DoesNotExist(p)) if p == "/gone"
    ));
}

#[test]
fn generate_arguments() {
    let (p, o, s) = generate_args(None, None, true, "/w", true).unwrap();
    assert_eq!(p, "/w");
    assert_eq!(o, "/w/Filefile.yaml");
    assert!(s);
    let (p, o, s) = generate_args(Some("/t".into()), Some("out.yaml".into()), false, "/w", true).unwrap();
    assert_eq!((p.as_str(), o.as_str(), s), ("/t", "out.yaml", false));
    assert!(matches!(
        generate_args(Some("/t".into()), None, false, "/w", false),
        Err(PathError::DoesNotExist(p)) if p == "/t"
    ));
    assert!(matches!(
        generate_args(None, Some("out.yaml".into()), true, "/w", false),
        Err(PathError::DoesNotExist(p)) if p == "/w"
    ));
}
