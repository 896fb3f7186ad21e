use filefile::paths::{
    combine_path, get_basename, get_dirname, path_file_name, path_parent, validate_path, PathError,
};
use std::path::Path;

fn all_paths(max_len: usize) -> Vec<String> {
    let alphabet = ['a', '.', '/'];
    let mut out = vec![String::new()];
    let mut layer = vec![String::new()];
    for _ in 0..max_len {
        let mut next = Vec::new();
        for p in &layer {
            for c in alphabet {
                let mut q = p.clone();
                q.push(c);
                next.push(q);
            }
        }
        out.extend(next.iter().cloned());
        layer = next;
    }
    out
}

#[test]
fn file_name_matches_std() {
    for p in all_paths(6) {
        let std = Path::new(&p).file_name().map(|n| n.to_str().unwrap().to_string());
        let ours = path_file_name(&p).map(|n| n.to_string());
        assert_eq!(ours, std, "file_name of {:?}", p);
    }
}

#[test]
fn parent_matches_std() {
    for p in all_paths(6) {
        let std = Path::new(&p).parent().map(|n| n.to_str().unwrap().to_string());
        let ours = path_parent(&p).map(|n| n.to_string());
        assert_eq!(ours, std, "parent of {:?}", p);
    }
}

#[test]
fn join_matches_std() {
    let ps = all_paths(3);
    for a in &ps {
        for b in &ps {
            let std = Path::new(a).join(b).to_str().unwrap().to_string();
            assert_eq!(combine_path(a, b), std, "join of {:?} and {:?}", a, b);
        }
    }
}

#[test]
fn combine_path_example() {
    assert_eq!(combine_path("bongo", "taco"), "bongo/taco");
    assert_eq!(combine_path("bongo/", "taco"), "bongo/taco");
    assert_eq!(combine_path("bongo", "/taco"), "/taco");
    assert_eq!(combine_path("", "taco"), "taco");
}

#[test]
fn basename_and_dirname() {
    assert_eq!(get_basename("/a/b/c.txt".to_string()), "c.txt");
    assert_eq!(get_basename("/a/b/".to_string()), "b");
    assert_eq!(get_basename("/".to_string()), "");
    assert_eq!(get_basename("a/..".to_string()), "");
    assert_eq!(get_dirname("/a/b/c.txt"), "/a/b");
    assert_eq!(get_dirname("c.txt"), "");
    assert_eq!(get_dirname("/c"), "/");
}

#[test]
fn validate_path_refuses_missing() {
    assert_eq!(validate_path("/x", true).unwrap(), "/x");
    match validate_path("/nope", false) {
        Err(PathError::DoesNotExist(p)) => assert_eq!(p, "/nope"),
        other => panic!("unexpected {:?}", other),
    }
}
