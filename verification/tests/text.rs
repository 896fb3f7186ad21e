use filefile::text::{begins_with, is_whitespace, join_words, same_text, split_words, trim};

#[test]
fn whitespace_matches_std_for_every_char() {
    for u in 0u32..=0x10FFFF {
        if let Some(c) = char::from_u32(u) {
            assert_eq!(is_whitespace(c), c.is_whitespace(), "char {:#x}", u);
        }
    }
}

#[test]
fn trim_matches_std() {
    let cases = [
        "", " ", "a", " a ", "\t\na b\r\n", "\u{2003}x\u{205f}", "x\u{200b}", "  \u{85}",
        "a  b", "\u{3000}\u{3000}",
    ];
    for s in cases {
        assert_eq!(trim(s), s.trim(), "{:?}", s);
    }
}

#[test]
fn split_words_matches_std() {
    let cases = ["", "   ", "a", "a b", "  a\t\tb  c ", "\u{a0}x\u{1680}y", "one"];
    for s in cases {
        let ours: Vec<&str> = split_words(s);
        let std: Vec<&str> = s.split_whitespace().collect();
        assert_eq!(ours, std, "{:?}", s);
    }
}

#[test]
fn join_words_matches_std() {
    let cases: [&[&str]; 4] = [&[], &["a"], &["a", "b"], &["x", "", "y"]];
    for ws in cases {
        assert_eq!(join_words(ws), ws.join(" "));
    }
}

#[test]
fn equality_and_prefix() {
    assert!(same_text("abc", "abc"));
    assert!(!same_text("abc", "abd"));
    assert!(!same_text("ab", "abc"));
    assert!(same_text("", ""));
    assert!(begins_with("https://x", "https://"));
    assert!(begins_with("abc", ""));
    assert!(!begins_with("http", "https"));
    assert!(!begins_with("ab", "abc"));
}
