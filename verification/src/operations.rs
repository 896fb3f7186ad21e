//! Operations attached to a node through YAML tags.
use vstd::prelude::*;

use crate::paths::{parent, path_parent};
use crate::text::{
    is_ws, join_spaced, join_words, law_trimmed_is_inner_run, same_text, split_words, trim, trimmed,
    words,
};

verus! {

/// Operations attached to a node via YAML tags.
///
/// `Git(url)` is `!git <url>`: clone `<url>` into the node's path at apply
/// time. `Sh(cmd)` is `!sh "<cmd>"`: run `<cmd>` with the node's parent
/// directory as working directory and write what it prints to the node's
/// path. `Noop` does nothing.
#[derive(Debug)]
pub enum Operation {
    Git(String),
    Sh(String),
    Noop,
}

/// What an [`Operation`] holds, as text.
pub enum OpView {
    Git(Seq<char>),
    Sh(Seq<char>),
    Noop,
}

impl View for Operation {
    type V = OpView;

    open spec fn view(&self) -> OpView {
        match self {
            Operation::Git(url) => OpView::Git(url@),
            Operation::Sh(cmd) => OpView::Sh(cmd@),
            Operation::Noop => OpView::Noop,
        }
    }
}

impl Clone for Operation {
    fn clone(&self) -> (r: Self)
        ensures
            r@ == self@,
    {
        match self {
            Operation::Git(url) => Operation::Git(url.clone()),
            Operation::Sh(cmd) => Operation::Sh(cmd.clone()),
            Operation::Noop => Operation::Noop,
        }
    }
}

impl PartialEq for Operation {
    fn eq(&self, other: &Self) -> (r: bool) {
        match (self, other) {
            (Operation::Git(a), Operation::Git(b)) => a.eq(b),
            (Operation::Sh(a), Operation::Sh(b)) => a.eq(b),
            (Operation::Noop, Operation::Noop) => true,
            _ => false,
        }
    }
}

impl vstd::std_specs::cmp::PartialEqSpecImpl for Operation {
    open spec fn obeys_eq_spec() -> bool {
        true
    }

    open spec fn eq_spec(&self, other: &Operation) -> bool {
        self@ == other@
    }
}

/// Why a tag does not make an operation.
#[derive(Debug)]
pub enum OpError {
    /// There was no tag at all.
    EmptyToken,
    /// `!git` came without a URL.
    MissingUrl,
    /// `!sh` came without a command.
    MissingCommand,
    /// The tag names no operation.
    UnknownTag(String),
}

/// What an [`OpError`] holds, as text.
pub enum OpErrorView {
    EmptyToken,
    MissingUrl,
    MissingCommand,
    UnknownTag(Seq<char>),
}

impl View for OpError {
    type V = OpErrorView;

    open spec fn view(&self) -> OpErrorView {
        match self {
            OpError::EmptyToken => OpErrorView::EmptyToken,
            OpError::MissingUrl => OpErrorView::MissingUrl,
            OpError::MissingCommand => OpErrorView::MissingCommand,
            OpError::UnknownTag(t) => OpErrorView::UnknownTag(t@),
        }
    }
}

pub open spec fn git_tag() -> Seq<char> {
    seq!['!', 'g', 'i', 't']
}

pub open spec fn sh_tag() -> Seq<char> {
    seq!['!', 's', 'h']
}

/// The operation that the tag `op_token` with the text `op_args` stands for.
pub open spec fn op_from_tokens(op_token: Seq<char>, op_args: Seq<char>) -> Result<
    OpView,
    OpErrorView,
> {
    if op_token == git_tag() {
        if trimmed(op_args).len() == 0 {
            Err(OpErrorView::MissingUrl)
        } else {
            Ok(OpView::Git(trimmed(op_args)))
        }
    } else if op_token == sh_tag() {
        if trimmed(op_args).len() == 0 {
            Err(OpErrorView::MissingCommand)
        } else {
            Ok(OpView::Sh(trimmed(op_args)))
        }
    } else {
        Err(OpErrorView::UnknownTag(op_token))
    }
}

/// The operation that a whole token such as `!sh echo hi` stands for: its
/// first word is the tag, the others, joined by single spaces, its text.
pub open spec fn op_from_raw_token(raw: Seq<char>) -> Result<OpView, OpErrorView> {
    let ws = words(raw);
    if ws.len() == 0 {
        Err(OpErrorView::EmptyToken)
    } else {
        op_from_tokens(ws[0], join_spaced(ws.drop_first()))
    }
}

/// The view of an operation's result.
pub open spec fn op_result_view(r: Result<Operation, OpError>) -> Result<OpView, OpErrorView> {
    match r {
        Ok(op) => Ok(op@),
        Err(e) => Err(e@),
    }
}

/// The directory a shell command of a node at `node_path` runs in.
pub open spec fn shell_dir(node_path: Seq<char>) -> Seq<char> {
    match parent(node_path) {
        Some(dir) => dir,
        None => seq!['.'],
    }
}

impl OpError {
    /// What went wrong, in words.
    pub fn message(&self) -> (r: String)
        ensures
            r@ == match self@ {
                OpErrorView::EmptyToken => "Empty op token"@,
                OpErrorView::MissingUrl => "'!git' requires a URL"@,
                OpErrorView::MissingCommand => "'!sh' requires a command"@,
                OpErrorView::UnknownTag(t) => "Unknown op tag: "@ + t,
            },
    {
        match self {
            OpError::EmptyToken => "Empty op token".to_string(),
            OpError::MissingUrl => "'!git' requires a URL".to_string(),
            OpError::MissingCommand => "'!sh' requires a command".to_string(),
            OpError::UnknownTag(t) => {
                let mut m = "Unknown op tag: ".to_string();
                m.append(t.as_str());
                m
            },
        }
    }
}

impl Operation {
    /// The operation named by the tag `op_token`, with `op_args` as its URL
    /// or command once surrounding white space is removed.
    pub fn from_tokens(op_token: &str, op_args: &str) -> (r: Result<Operation, OpError>)
        ensures
            op_result_view(r) == op_from_tokens(op_token@, op_args@),
    {
        proof {
            reveal_strlit("!git");
            reveal_strlit("!sh");
            assert("!git"@ =~= git_tag());
            assert("!sh"@ =~= sh_tag());
        }
        if same_text(op_token, "!git") {
            let url = trim(op_args);
            if url.unicode_len() == 0 {
                return Err(OpError::MissingUrl);
            }
            Ok(Operation::Git(url.to_string()))
        } else if same_text(op_token, "!sh") {
            let cmd = trim(op_args);
            if cmd.unicode_len() == 0 {
                return Err(OpError::MissingCommand);
            }
            Ok(Operation::Sh(cmd.to_string()))
        } else {
            Err(OpError::UnknownTag(op_token.to_string()))
        }
    }

    /// The operation named by a whole token: its first white-space separated
    /// word is the tag and the remaining words, joined by single spaces, are
    /// the text.
    pub fn from_raw_token(raw_token: &str) -> (r: Result<Operation, OpError>)
        ensures
            op_result_view(r) == op_from_raw_token(raw_token@),
    {
        let tokens = split_words(raw_token);
        if tokens.len() == 0 {
            return Err(OpError::EmptyToken);
        }
        let rest = join_words(vstd::slice::slice_subrange(tokens.as_slice(), 1, tokens.len()));
        proof {
            assert(tokens@.map_values(|w: &str| w@)[0] == tokens@[0]@);
            assert(tokens@.subrange(1, tokens@.len() as int).map_values(|w: &str| w@)
                =~= tokens@.map_values(|w: &str| w@).drop_first());
        }
        Operation::from_tokens(tokens[0], rest.as_str())
    }

    /// Whether what a shell command printed (`printed` bytes) becomes its
    /// node's file: always, but for a command that printed nothing and made
    /// the file itself (absent before the run, present after), whose file is
    /// kept as the command wrote it.
    pub fn writes_output(printed: usize, existed_before: bool, exists_after: bool) -> (r: bool)
        ensures
            r == !(printed == 0 && !existed_before && exists_after),
    {
        !(printed == 0 && !existed_before && exists_after)
    }

    /// The working directory of the shell command of a node at `node_path`:
    /// the node's parent directory, or `.` when the path has none.
    pub fn shell_dir(node_path: &str) -> (r: String)
        ensures
            r@ == shell_dir(node_path@),
    {
        match path_parent(node_path) {
            Some(dir) => dir.to_string(),
            None => {
                proof {
                    reveal_strlit(".");
                    assert("."@ =~= seq!['.']);
                }
                ".".to_string()
            },
        }
    }
}

/// The text of a tag with only its surrounding white space removed, every
/// character between kept, newlines included: the run `a[i..j]` that starts
/// and ends with a character that is not white space and has only white
/// space outside it, or none when all of `a` is white space.
pub open spec fn inner_run(a: Seq<char>, i: int, j: int) -> bool {
    &&& 0 <= i < j <= a.len()
    &&& forall|k: int| 0 <= k < i ==> is_ws(#[trigger] a[k])
    &&& forall|k: int| j <= k < a.len() ==> is_ws(#[trigger] a[k])
    &&& !is_ws(a[i])
    &&& !is_ws(a[j - 1])
}

/// The command of a `!sh` tag is the tag's text with only the white space
/// around it removed: a script of several lines stays those lines. A text
/// of white space alone is refused as a missing command.
pub proof fn law_sh_command_is_inner_text(a: Seq<char>)
    ensures
        (forall|k: int| 0 <= k < a.len() ==> is_ws(#[trigger] a[k])) ==> op_from_tokens(sh_tag(), a)
            == Err::<OpView, OpErrorView>(OpErrorView::MissingCommand),
        !(forall|k: int| 0 <= k < a.len() ==> is_ws(#[trigger] a[k])) ==> exists|i: int, j: int|
            #![trigger a.subrange(i, j)]
            inner_run(a, i, j) && op_from_tokens(sh_tag(), a) == Ok::<OpView, OpErrorView>(
                OpView::Sh(a.subrange(i, j)),
            ),
{
    let r = law_trimmed_is_inner_run(a);
    if !(forall|k: int| 0 <= k < a.len() ==> is_ws(#[trigger] a[k])) {
        assert(inner_run(a, r.0, r.1));
        assert(op_from_tokens(sh_tag(), a) == Ok::<OpView, OpErrorView>(
            OpView::Sh(a.subrange(r.0, r.1)),
        ));
    }
}

/// The address of a `!git` tag is the tag's text with only the white space
/// around it removed. A text of white space alone is refused as a missing
/// address.
pub proof fn law_git_url_is_inner_text(a: Seq<char>)
    ensures
        (forall|k: int| 0 <= k < a.len() ==> is_ws(#[trigger] a[k])) ==> op_from_tokens(git_tag(), a)
            == Err::<OpView, OpErrorView>(OpErrorView::MissingUrl),
        !(forall|k: int| 0 <= k < a.len() ==> is_ws(#[trigger] a[k])) ==> exists|i: int, j: int|
            #![trigger a.subrange(i, j)]
            inner_run(a, i, j) && op_from_tokens(git_tag(), a) == Ok::<OpView, OpErrorView>(
                OpView::Git(a.subrange(i, j)),
            ),
{
    let r = law_trimmed_is_inner_run(a);
    if !(forall|k: int| 0 <= k < a.len() ==> is_ws(#[trigger] a[k])) {
        assert(inner_run(a, r.0, r.1));
        assert(op_from_tokens(git_tag(), a) == Ok::<OpView, OpErrorView>(
            OpView::Git(a.subrange(r.0, r.1)),
        ));
    }
}

} // verus!
