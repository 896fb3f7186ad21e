//! The `apply` and `generate` commands: where they read and write, and the
//! steps that applying a Filefile takes.
use vstd::prelude::*;

use crate::filefile::{yaml_name, FilefileNames};
use crate::node::{nodes_view, Node, NodeType, NodeView};
use crate::operations::{OpView, Operation};
use crate::paths::{combine_path, join, validate_path, PathError};
use crate::text::begins_with;

verus! {

pub open spec fn http_prefix() -> Seq<char> {
    "http://"@
}

pub open spec fn https_prefix() -> Seq<char> {
    "https://"@
}

/// The input is an `http://` or `https://` URL.
pub open spec fn remote(input: Seq<char>) -> bool {
    http_prefix().is_prefix_of(input) || https_prefix().is_prefix_of(input)
}

/// Whether `input` names a Filefile to fetch over HTTP.
pub fn is_remote(input: &str) -> (r: bool)
    ensures
        r == remote(input@),
{
    let r = begins_with(input, "http://") || begins_with(input, "https://");
    r
}

/// Where the Filefile is read from when none is named: the default name in
/// the directory `cwd`.
pub open spec fn default_input(cwd: Seq<char>) -> Seq<char> {
    join(cwd, yaml_name())
}

/// Applies a Filefile into a directory.
#[derive(Debug)]
pub struct ApplyCommand {
    /// The directory the tree is built in.
    pub path: String,
    /// The Filefile: a path, or an `http(s)://` URL.
    pub input: String,
    /// Whether tags of a Filefile fetched over HTTP may run.
    pub allow_remote_ops: bool,
}

/// One step of applying a Filefile.
#[derive(Debug)]
pub enum Action {
    /// Create the directory at the path, with its missing parents.
    CreateDir(String),
    /// Write the text to the file at the path.
    WriteFile(String, String),
    /// Run the operation for the node at the path.
    RunOperation(Operation, String),
    /// Stop: the Filefile came over HTTP and holds this operation, which may
    /// not run.
    Refuse(Operation),
}

/// What an [`Action`] holds, as mathematical values.
pub enum ActionView {
    CreateDir(Seq<char>),
    WriteFile(Seq<char>, Seq<char>),
    RunOperation(OpView, Seq<char>),
    Refuse(OpView),
}

impl View for Action {
    type V = ActionView;

    open spec fn view(&self) -> ActionView {
        match self {
            Action::CreateDir(p) => ActionView::CreateDir(p@),
            Action::WriteFile(p, t) => ActionView::WriteFile(p@, t@),
            Action::RunOperation(op, p) => ActionView::RunOperation(op@, p@),
            Action::Refuse(op) => ActionView::Refuse(op@),
        }
    }
}

pub open spec fn actions_view(s: Seq<Action>) -> Seq<ActionView> {
    Seq::new(s.len(), |i: int| s[i]@)
}

/// The steps for a node under the directory `parent`, and whether they end
/// in a refusal. A node with an operation is that operation alone; a
/// directory is created and then filled; a file is written with its text,
/// or empty.
pub open spec fn plan_node(n: NodeView, parent: Seq<char>, ops_allowed: bool) -> (
    Seq<ActionView>,
    bool,
)
    decreases n,
{
    let path = join(parent, n.basename);
    match n.op {
        Some(op) => if ops_allowed {
            (seq![ActionView::RunOperation(op, path)], false)
        } else {
            (seq![ActionView::Refuse(op)], true)
        },
        None => match n.node_type {
            NodeType::DIRECTORY => {
                let inner = plan_nodes(n.children, path, ops_allowed);
                (seq![ActionView::CreateDir(path)] + inner.0, inner.1)
            },
            NodeType::FILE => (
                seq![
                    ActionView::WriteFile(
                        path,
                        match n.contents {
                            Some(t) => t,
                            None => Seq::empty(),
                        },
                    ),
                ],
                false,
            ),
        },
    }
}

/// The steps for the nodes `ns`, in order, under `parent`; nothing follows
/// a refusal.
pub open spec fn plan_nodes(ns: Seq<NodeView>, parent: Seq<char>, ops_allowed: bool) -> (
    Seq<ActionView>,
    bool,
)
    decreases ns,
{
    if ns.len() == 0 {
        (Seq::empty(), false)
    } else {
        let first = plan_node(ns[0], parent, ops_allowed);
        if first.1 {
            first
        } else {
            let rest = plan_nodes(ns.drop_first(), parent, ops_allowed);
            (first.0 + rest.0, rest.1)
        }
    }
}

fn plan_node_into(node: &Node, parent: &str, ops_allowed: bool, out: &mut Vec<Action>) -> (stopped:
    bool)
    ensures
        actions_view(final(out)@) == actions_view(old(out)@) + plan_node(
            node@,
            parent@,
            ops_allowed,
        ).0,
        stopped == plan_node(node@, parent@, ops_allowed).1,
    decreases node,
{
    let path = combine_path(parent, node.basename.as_str());
    let ghost before = actions_view(out@);
    if let Some(op) = &node.op {
        if !ops_allowed {
            out.push(Action::Refuse(op.clone()));
            assert(actions_view(out@) =~= before + plan_node(node@, parent@, ops_allowed).0);
            return true;
        }
        out.push(Action::RunOperation(op.clone(), path));
        assert(actions_view(out@) =~= before + plan_node(node@, parent@, ops_allowed).0);
        return false;
    }
    match node.node_type {
        NodeType::DIRECTORY => {
            out.push(Action::CreateDir(path.clone()));
            assert(actions_view(out@) =~= before + seq![ActionView::CreateDir(path@)]);
            assert(node@.children =~= nodes_view(node.children@));
            let stopped = plan_nodes_into(&node.children, path.as_str(), ops_allowed, out);
            assert(actions_view(out@) =~= before + plan_node(node@, parent@, ops_allowed).0);
            stopped
        },
        NodeType::FILE => {
            let body = match &node.contents {
                Some(t) => t.clone(),
                None => String::new(),
            };
            out.push(Action::WriteFile(path, body));
            assert(actions_view(out@) =~= before + plan_node(node@, parent@, ops_allowed).0);
            false
        },
    }
}

fn plan_nodes_into(nodes: &Vec<Node>, parent: &str, ops_allowed: bool, out: &mut Vec<Action>) -> (stopped:
    bool)
    ensures
        actions_view(final(out)@) == actions_view(old(out)@) + plan_nodes(
            nodes_view(nodes@),
            parent@,
            ops_allowed,
        ).0,
        stopped == plan_nodes(nodes_view(nodes@), parent@, ops_allowed).1,
    decreases nodes,
{
    let ghost all = nodes_view(nodes@);
    let ghost start = actions_view(out@);
    let n = nodes.len();
    let mut i: usize = 0;
    assert(all.skip(0) =~= all);
    while i < n
        invariant
            n == nodes@.len() == all.len(),
            all == nodes_view(nodes@),
            start == actions_view(old(out)@),
            i <= n,
            !plan_nodes(all.skip(i as int), parent@, ops_allowed).1 ==> !plan_nodes(
                all,
                parent@,
                ops_allowed,
            ).1,
            plan_nodes(all.skip(i as int), parent@, ops_allowed).1 ==> plan_nodes(
                all,
                parent@,
                ops_allowed,
            ).1,
            start + plan_nodes(all, parent@, ops_allowed).0 == actions_view(out@) + plan_nodes(
                all.skip(i as int),
                parent@,
                ops_allowed,
            ).0,
        decreases n - i,
    {
        let ghost rest = all.skip(i as int);
        let ghost mid = actions_view(out@);
        proof {
            assert(rest[0] == nodes@[i as int]@);
            assert(rest.drop_first() =~= all.skip(i + 1));
        }
        let stopped = plan_node_into(&nodes[i], parent, ops_allowed, out);
        if stopped {
            proof {
                assert(start + plan_nodes(all, parent@, ops_allowed).0 =~= actions_view(out@));
            }
            return true;
        }
        proof {
            let first = plan_node(rest[0], parent@, ops_allowed);
            let tail = plan_nodes(rest.drop_first(), parent@, ops_allowed);
            assert(mid + (first.0 + tail.0) =~= actions_view(out@) + tail.0);
        }
        i = i + 1;
    }
    proof {
        assert(all.skip(n as int) =~= Seq::<NodeView>::empty());
        assert(actions_view(out@) + Seq::<ActionView>::empty() =~= actions_view(out@));
    }
    false
}

impl ApplyCommand {
    /// The command for `apply`: it builds in `path`, or in `cwd` when no
    /// path is given, and reads `file`, or the default Filefile of `cwd`.
    /// `path_exists` tells whether anything exists at the directory so
    /// chosen; the command is refused when nothing does.
    pub fn from_subcommand(
        path: Option<String>,
        file: Option<String>,
        cwd: &str,
        path_exists: bool,
        allow_remote_ops: bool,
    ) -> (r: Result<ApplyCommand, PathError>)
        ensures
            path_exists ==> (r matches Ok(c) && c.path@ == chosen(path, cwd@) && c.input@
                == match file {
                Some(f) => f@,
                None => default_input(cwd@),
            } && c.allow_remote_ops == allow_remote_ops),
            !path_exists ==> (r matches Err(PathError::DoesNotExist(p)) && p@ == chosen(
                path,
                cwd@,
            )),
    {
        let path = match path {
            Some(p) => p,
            None => cwd.to_string(),
        };
        let input = match file {
            Some(f) => f,
            None => combine_path(cwd, FilefileNames::default().as_str()),
        };
        let path = match validate_path(path.as_str(), path_exists) {
            Ok(p) => p,
            Err(e) => return Err(e),
        };
        Ok(ApplyCommand { path, input, allow_remote_ops })
    }

    /// The command that applies `file` in the current directory `cwd`,
    /// refused when nothing exists at `cwd`.
    pub fn from_file(file: &str, cwd: &str, cwd_exists: bool, allow_remote_ops: bool) -> (r: Result<
        ApplyCommand,
        PathError,
    >)
        ensures
            cwd_exists ==> (r matches Ok(c) && c.path@ == cwd@ && c.input@ == file@
                && c.allow_remote_ops == allow_remote_ops),
            !cwd_exists ==> (r matches Err(PathError::DoesNotExist(p)) && p@ == cwd@),
    {
        let path = match validate_path(cwd, cwd_exists) {
            Ok(p) => p,
            Err(e) => return Err(e),
        };
        Ok(ApplyCommand { path, input: file.to_string(), allow_remote_ops })
    }

    /// Whether the tags of the Filefile may run: always for a local one, and
    /// for one fetched over HTTP only when allowed.
    pub fn ops_allowed(&self) -> (r: bool)
        ensures
            r == (!remote(self.input@) || self.allow_remote_ops),
    {
        !is_remote(self.input.as_str()) || self.allow_remote_ops
    }

    /// The steps that apply the nodes of the Filefile in the command's
    /// directory, in order. When an operation may not run, the steps end
    /// with its refusal.
    pub fn plan(&self, nodes: &Vec<Node>) -> (r: Vec<Action>)
        ensures
            actions_view(r@) == plan_nodes(
                nodes_view(nodes@),
                self.path@,
                !remote(self.input@) || self.allow_remote_ops,
            ).0,
    {
        let allowed = self.ops_allowed();
        let mut out: Vec<Action> = Vec::new();
        assert(actions_view(out@) =~= Seq::<ActionView>::empty());
        let _ = plan_nodes_into(nodes, self.path.as_str(), allowed, &mut out);
        assert(actions_view(out@) =~= Seq::<ActionView>::empty() + plan_nodes(
            nodes_view(nodes@),
            self.path@,
            allowed,
        ).0);
        out
    }
}

/// The directory a command works in: the one given, or `cwd`.
pub open spec fn chosen(path: Option<String>, cwd: Seq<char>) -> Seq<char> {
    match path {
        Some(p) => p@,
        None => cwd,
    }
}

/// Where `generate` reads the tree (`path`, or `cwd`), where it writes the
/// Filefile (`output`, or the default Filefile of `cwd`), and whether it
/// prints it. `path_exists` tells whether anything exists at the directory
/// so chosen; the arguments are refused when nothing does.
pub fn generate_args(
    path: Option<String>,
    output: Option<String>,
    to_stdout: bool,
    cwd: &str,
    path_exists: bool,
) -> (r: Result<(String, String, bool), PathError>)
    ensures
        path_exists ==> (r matches Ok(a) && a.0@ == chosen(path, cwd@) && a.1@ == match output {
            Some(o) => o@,
            None => default_input(cwd@),
        } && a.2 == to_stdout),
        !path_exists ==> (r matches Err(PathError::DoesNotExist(p)) && p@ == chosen(path, cwd@)),
{
    let path = match path {
        Some(p) => p,
        None => cwd.to_string(),
    };
    let output = match output {
        Some(o) => o,
        None => combine_path(cwd, FilefileNames::default().as_str()),
    };
    let path = match validate_path(path.as_str(), path_exists) {
        Ok(p) => p,
        Err(e) => return Err(e),
    };
    Ok((path, output, to_stdout))
}

/// With operations not allowed, the steps for a node run none.
proof fn lemma_plan_node_runs_nothing(n: NodeView, parent: Seq<char>)
    ensures
        forall|i: int|
            0 <= i < plan_node(n, parent, false).0.len() ==> !(plan_node(
                n,
                parent,
                false,
            ).0[i] is RunOperation),
    decreases n,
{
    if n.op is None && n.node_type == NodeType::DIRECTORY {
        lemma_plan_nodes_run_nothing(n.children, join(parent, n.basename));
    }
}

proof fn lemma_plan_nodes_run_nothing(ns: Seq<NodeView>, parent: Seq<char>)
    ensures
        forall|i: int|
            0 <= i < plan_nodes(ns, parent, false).0.len() ==> !(plan_nodes(
                ns,
                parent,
                false,
            ).0[i] is RunOperation),
    decreases ns,
{
    if ns.len() > 0 {
        lemma_plan_node_runs_nothing(ns[0], parent);
        lemma_plan_nodes_run_nothing(ns.drop_first(), parent);
    }
}

/// With operations allowed, the steps for a node refuse nothing and do not
/// stop.
proof fn lemma_plan_node_refuses_nothing(n: NodeView, parent: Seq<char>)
    ensures
        !plan_node(n, parent, true).1,
        forall|i: int|
            0 <= i < plan_node(n, parent, true).0.len() ==> !(plan_node(
                n,
                parent,
                true,
            ).0[i] is Refuse),
    decreases n,
{
    if n.op is None && n.node_type == NodeType::DIRECTORY {
        lemma_plan_nodes_refuse_nothing(n.children, join(parent, n.basename));
    }
}

proof fn lemma_plan_nodes_refuse_nothing(ns: Seq<NodeView>, parent: Seq<char>)
    ensures
        !plan_nodes(ns, parent, true).1,
        forall|i: int|
            0 <= i < plan_nodes(ns, parent, true).0.len() ==> !(plan_nodes(
                ns,
                parent,
                true,
            ).0[i] is Refuse),
    decreases ns,
{
    if ns.len() > 0 {
        lemma_plan_node_refuses_nothing(ns[0], parent);
        lemma_plan_nodes_refuse_nothing(ns.drop_first(), parent);
    }
}

/// A Filefile fetched over HTTP, without leave for its operations, runs
/// none of them: no step that applying it takes is an operation.
pub proof fn law_remote_operations_never_run(
    ns: Seq<NodeView>,
    dir: Seq<char>,
    input: Seq<char>,
    allow_remote_ops: bool,
    ops_allowed: bool,
)
    requires
        ops_allowed == (!remote(input) || allow_remote_ops),
        remote(input),
        !allow_remote_ops,
    ensures
        forall|i: int|
            0 <= i < plan_nodes(ns, dir, ops_allowed).0.len() ==> !(#[trigger]
            plan_nodes(ns, dir, ops_allowed).0[i] is RunOperation),
{
    lemma_plan_nodes_run_nothing(ns, dir);
}

/// A local Filefile runs its operations unconditionally: applying it
/// refuses nothing and goes through to the end.
pub proof fn law_local_operations_run(
    ns: Seq<NodeView>,
    dir: Seq<char>,
    input: Seq<char>,
    allow_remote_ops: bool,
    ops_allowed: bool,
)
    requires
        ops_allowed == (!remote(input) || allow_remote_ops),
        !remote(input),
    ensures
        !plan_nodes(ns, dir, ops_allowed).1,
        forall|i: int|
            0 <= i < plan_nodes(ns, dir, ops_allowed).0.len() ==> !(#[trigger]
            plan_nodes(ns, dir, ops_allowed).0[i] is Refuse),
{
    lemma_plan_nodes_refuse_nothing(ns, dir);
}

/// A node that carries an operation is not created beforehand: the one step
/// for it is its operation, at the node's path.
pub proof fn law_operation_node_is_only_its_operation(n: NodeView, parent: Seq<char>)
    requires
        n.op is Some,
    ensures
        plan_node(n, parent, true).0 == seq![
            ActionView::RunOperation(n.op->0, join(parent, n.basename)),
        ],
{
}

/// A directory without an operation is created first, at its path under
/// `parent`, whatever its children, none included; its steps then follow.
pub proof fn law_directory_is_created_first(n: NodeView, parent: Seq<char>, ops_allowed: bool)
    requires
        n.op is None,
        n.node_type == NodeType::DIRECTORY,
    ensures
        plan_node(n, parent, ops_allowed).0.len() >= 1,
        plan_node(n, parent, ops_allowed).0[0] == ActionView::CreateDir(join(parent, n.basename)),
        plan_node(n, parent, ops_allowed).0.skip(1) == plan_nodes(
            n.children,
            join(parent, n.basename),
            ops_allowed,
        ).0,
        plan_node(n, parent, ops_allowed).1 == plan_nodes(
            n.children,
            join(parent, n.basename),
            ops_allowed,
        ).1,
{
    let inner = plan_nodes(n.children, join(parent, n.basename), ops_allowed);
    assert((seq![ActionView::CreateDir(join(parent, n.basename))] + inner.0).skip(1) =~= inner.0);
}

/// A file without an operation is one step: writing, at its path under
/// `parent`, exactly its text, or nothing when it has none.
pub proof fn law_file_is_written_with_its_text(n: NodeView, parent: Seq<char>, ops_allowed: bool)
    requires
        n.op is None,
        n.node_type == NodeType::FILE,
    ensures
        plan_node(n, parent, ops_allowed).0.len() == 1,
        !plan_node(n, parent, ops_allowed).1,
        n.contents matches Some(t) ==> plan_node(n, parent, ops_allowed).0[0]
            == ActionView::WriteFile(join(parent, n.basename), t),
        n.contents is None ==> plan_node(n, parent, ops_allowed).0[0] == ActionView::WriteFile(
            join(parent, n.basename),
            Seq::empty(),
        ),
{
}

/// Without leave, a node's operation is refused, and the refusal is its one
/// step.
pub proof fn law_operation_refused_without_leave(n: NodeView, parent: Seq<char>)
    requires
        n.op is Some,
    ensures
        plan_node(n, parent, false) == (seq![ActionView::Refuse(n.op->0)], true),
{
}

/// The steps for two runs of nodes one after the other are those of the
/// first run and then, unless it ended in a refusal, those of the second;
/// nothing follows a refusal.
pub proof fn law_plan_of_joined_runs(
    a: Seq<NodeView>,
    b: Seq<NodeView>,
    parent: Seq<char>,
    ops_allowed: bool,
)
    ensures
        plan_nodes(a, parent, ops_allowed).1 ==> plan_nodes(a + b, parent, ops_allowed)
            == plan_nodes(a, parent, ops_allowed),
        !plan_nodes(a, parent, ops_allowed).1 ==> plan_nodes(a + b, parent, ops_allowed) == (
            plan_nodes(a, parent, ops_allowed).0 + plan_nodes(b, parent, ops_allowed).0,
            plan_nodes(b, parent, ops_allowed).1,
        ),
    decreases a.len(),
{
    if a.len() == 0 {
        assert(a + b =~= b);
        assert(Seq::<ActionView>::empty() + plan_nodes(b, parent, ops_allowed).0 =~= plan_nodes(
            b,
            parent,
            ops_allowed,
        ).0);
    } else {
        let t = a.drop_first();
        law_plan_of_joined_runs(t, b, parent, ops_allowed);
        assert((a + b)[0] == a[0]);
        assert((a + b).drop_first() =~= t + b);
        let first = plan_node(a[0], parent, ops_allowed);
        if !first.1 {
            let rt = plan_nodes(t, parent, ops_allowed);
            if !rt.1 {
                assert(first.0 + (rt.0 + plan_nodes(b, parent, ops_allowed).0) =~= (first.0 + rt.0)
                    + plan_nodes(b, parent, ops_allowed).0);
            }
        }
    }
}

/// The Filefile read when none is named is the one called `Filefile.yaml`
/// in the directory `cwd`, whatever that directory is.
pub proof fn law_default_input_is_filefile_yaml(cwd: Seq<char>)
    ensures
        crate::paths::file_name(default_input(cwd)) == Some("Filefile.yaml"@),
{
    reveal_strlit("Filefile.yaml");
    let b = yaml_name();
    assert(b.len() == 13);
    assert forall|k: int| 0 <= k < b.len() implies #[trigger] b[k] != '/' by {}
    assert(b != seq!['.']);
    assert(b != crate::paths::dot_dot());
    crate::node::law_joined_name_is_file_name(cwd, b);
}

} // verus!
