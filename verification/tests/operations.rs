use filefile::operations::{OpError, Operation};

#[test]
fn parses_git_tag() {
    let op = Operation::from_tokens("!git", "https://example.com/repo.git").unwrap();
    assert_eq!(op, Operation::Git("https://example.com/repo.git".into()));
}

#[test]
fn parses_sh_tag() {
    let op = Operation::from_tokens("!sh", "echo hi > out").unwrap();
    assert_eq!(op, Operation::Sh("echo hi > out".into()));
}

#[test]
fn unknown_tag_errors() {
    assert!(Operation::from_tokens("!nope", "whatever").is_err());
}

#[test]
fn git_requires_url() {
    assert!(Operation::from_tokens("!git", "").is_err());
    assert!(Operation::from_tokens("!git", "   ").is_err());
}

#[test]
fn sh_requires_command() {
    assert!(Operation::from_tokens("!sh", "").is_err());
}

#[test]
fn from_tokens_trims_surrounding_white_space() {
    let op = Operation::from_tokens("!sh", " \t printf hi \n").unwrap();
    assert_eq!(op, Operation::Sh("printf hi".into()));
    let op = Operation::from_tokens("!git", "\u{3000}u\u{a0}").unwrap();
    assert_eq!(op, Operation::Git("u".into()));
}

#[test]
fn from_tokens_errors_name_the_problem() {
    assert!(matches!(Operation::from_tokens("!git", " "), Err(OpError::MissingUrl)));
    assert!(matches!(Operation::from_tokens("!sh", "\t"), Err(OpError::MissingCommand)));
    match Operation::from_tokens("!nope", "x") {
        Err(OpError::UnknownTag(t)) => assert_eq!(t, "!nope"),
        other => panic!("unexpected {:?}", other),
    }
    // the tag is compared whole, not trimmed
    assert!(matches!(Operation::from_tokens(" !git", "u"), Err(OpError::UnknownTag(_))));
    assert!(matches!(Operation::from_tokens("!GIT", "u"), Err(OpError::UnknownTag(_))));
}

#[test]
fn error_messages() {
    assert_eq!(OpError::EmptyToken.message(), "Empty op token");
    assert_eq!(OpError::MissingUrl.message(), "'!git' requires a URL");
    assert_eq!(OpError::MissingCommand.message(), "'!sh' requires a command");
    assert_eq!(OpError::UnknownTag("!x".to_string()).message(), "Unknown op tag: !x");
}

#[test]
fn from_raw_token_splits_tag_and_words() {
    let op = Operation::from_raw_token("  !sh   echo   hi\tthere ").unwrap();
    assert_eq!(op, Operation::Sh("echo hi there".into()));
    let op = Operation::from_raw_token("!git https://example.com/r.git").unwrap();
    assert_eq!(op, Operation::Git("https://example.com/r.git".into()));
    assert!(matches!(Operation::from_raw_token(""), Err(OpError::EmptyToken)));
    assert!(matches!(Operation::from_raw_token(" \n\t "), Err(OpError::EmptyToken)));
    assert!(matches!(Operation::from_raw_token("!git"), Err(OpError::MissingUrl)));
    assert!(matches!(Operation::from_raw_token("!make all"), Err(OpError::UnknownTag(_))));
}

#[test]
fn clone_and_equality() {
    let a = Operation::Sh("x".into());
    assert_eq!(a.clone(), a);
    assert_ne!(Operation::Sh("x".into()), Operation::Git("x".into()));
    assert_eq!(Operation::Noop, Operation::Noop);
    assert_ne!(Operation::Git("a".into()), Operation::Git("b".into()));
}

#[test]
fn shell_dir_is_the_parent_or_dot() {
    assert_eq!(Operation::shell_dir("/tmp/x/marker"), "/tmp/x");
    assert_eq!(Operation::shell_dir("marker"), "");
    assert_eq!(Operation::shell_dir("/"), ".");
    assert_eq!(Operation::shell_dir(""), ".");
}

#[test]
fn shell_output_is_written_unless_the_command_made_the_file() {
    assert!(Operation::writes_output(2, false, true));
    assert!(Operation::writes_output(2, true, true));
    assert!(Operation::writes_output(0, false, false));
    // a file that was there before is emptied by a command that prints nothing
    assert!(Operation::writes_output(0, true, true));
    // the command made the file itself and printed nothing: it is kept
    assert!(!Operation::writes_output(0, false, true));
}
