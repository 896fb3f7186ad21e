//! Reading a directory tree into nodes, one directory listing at a time.
//!
//! The walk goes depth first, as the directories are listed: it asks for
//! the listing of the root, then of each sub-directory in turn, and builds
//! every node from the entry it was listed as.
use vstd::prelude::*;

use crate::node::{new_node, nodes_view, Node, NodeType, NodeView};

verus! {

/// A directory listing: the path of each entry and whether it is a
/// directory, in the order they were listed.
pub type ListingView = Seq<(Seq<char>, bool)>;

pub open spec fn listing_view(l: Seq<(String, bool)>) -> ListingView {
    Seq::new(l.len(), |i: int| (l[i].0@, l[i].1))
}

/// The entry a node stands for.
pub open spec fn entry_of(n: NodeView) -> (Seq<char>, bool) {
    (n.path, n.node_type == NodeType::DIRECTORY)
}

/// The entries that the nodes `ns` stand for.
pub open spec fn entries(ns: Seq<NodeView>) -> ListingView {
    Seq::new(ns.len(), |i: int| entry_of(ns[i]))
}

/// The node made for the entry `(path, is_dir)`, before its children.
pub open spec fn listed_node(path: Seq<char>, is_dir: bool) -> NodeView {
    NodeView {
        node_type: if is_dir {
            NodeType::DIRECTORY
        } else {
            NodeType::FILE
        },
        ..new_node(path)
    }
}

/// Every node of `ns`, at any depth, is the node of its entry with its
/// children added, and files have no children.
pub open spec fn well_built(ns: Seq<NodeView>) -> bool
    decreases ns,
{
    forall|i: int|
        0 <= i < ns.len() ==> {
            &&& (NodeView { children: Seq::empty(), ..#[trigger] ns[i] }) == listed_node(
                ns[i].path,
                ns[i].node_type == NodeType::DIRECTORY,
            )
            &&& ns[i].node_type == NodeType::FILE ==> ns[i].children.len() == 0
            &&& ns[i].node_type == NodeType::DIRECTORY ==> well_built(ns[i].children)
        }
}

/// The listings read, with the path each was read at, to find `ns` in the
/// directory `path`: the directory itself first, then its sub-directories
/// depth first.
pub open spec fn dir_log(path: Seq<char>, ns: Seq<NodeView>) -> Seq<(Seq<char>, ListingView)>
    decreases ns, 1nat,
{
    seq![(path, entries(ns))] + sub_log(ns)
}

/// The listings read below the nodes `ns`, in order.
pub open spec fn sub_log(ns: Seq<NodeView>) -> Seq<(Seq<char>, ListingView)>
    decreases ns, 0nat,
{
    if ns.len() == 0 {
        Seq::empty()
    } else {
        sub_log(ns.drop_last()) + if ns.last().node_type == NodeType::DIRECTORY {
            dir_log(ns.last().path, ns.last().children)
        } else {
            Seq::empty()
        }
    }
}

/// A directory being filled: its path, its whole listing, and the nodes
/// finished so far, one per entry from the start.
struct Frame {
    path: String,
    listing: Vec<(String, bool)>,
    done: Vec<Node>,
}

pub struct FrameView {
    pub path: Seq<char>,
    pub listing: ListingView,
    pub done: Seq<NodeView>,
}

spec fn frame_view(f: Frame) -> FrameView {
    FrameView { path: f.path@, listing: listing_view(f.listing@), done: nodes_view(f.done@) }
}

spec fn frames_view(fs: Seq<Frame>) -> Seq<FrameView> {
    Seq::new(fs.len(), |i: int| frame_view(fs[i]))
}

/// The listings read for the directories of the frames, bottom first.
pub open spec fn stack_log(fs: Seq<FrameView>) -> Seq<(Seq<char>, ListingView)>
    decreases fs.len(),
{
    if fs.len() == 0 {
        Seq::empty()
    } else {
        stack_log(fs.drop_last()) + seq![(fs.last().path, fs.last().listing)] + sub_log(
            fs.last().done,
        )
    }
}

/// Entries not yet finished, over all frames, and the frames themselves.
spec fn work_left(fs: Seq<FrameView>) -> nat
    decreases fs.len(),
{
    if fs.len() == 0 {
        0
    } else {
        work_left(fs.drop_last()) + (fs.last().listing.len() - fs.last().done.len()) as nat + 1
    }
}

/// A walk of a directory tree in progress.
pub struct TreeWalk {
    frames: Vec<Frame>,
    waiting: Option<String>,
    result: Option<Vec<Node>>,
    root_path: Ghost<Seq<char>>,
    root_is_dir: Ghost<bool>,
    history: Ghost<Seq<(Seq<char>, ListingView)>>,
}

impl TreeWalk {
    /// The path of the walk's root.
    pub closed spec fn root_path(&self) -> Seq<char> {
        self.root_path@
    }

    /// Whether the root is a directory.
    pub closed spec fn root_is_dir(&self) -> bool {
        self.root_is_dir@
    }

    /// The listings given so far, each with the path it was asked for.
    pub closed spec fn history(&self) -> Seq<(Seq<char>, ListingView)> {
        self.history@
    }

    /// The path whose listing the walk waits for, if any.
    pub closed spec fn waiting_for(&self) -> Option<Seq<char>> {
        match self.waiting {
            Some(p) => Some(p@),
            None => None,
        }
    }

    /// The nodes found, once the walk is over.
    pub closed spec fn found(&self) -> Option<Seq<NodeView>> {
        match self.result {
            Some(ns) => Some(nodes_view(ns@)),
            None => None,
        }
    }

    /// What holds of a walk at every step.
    pub closed spec fn wf(&self) -> bool {
        let fs = frames_view(self.frames@);
        &&& self.waiting is Some <==> self.result is None
        &&& self.result is Some ==> fs.len() == 0
        &&& self.result matches Some(ns) ==> {
            &&& well_built(nodes_view(ns@))
            &&& self.root_is_dir@ ==> self.history@ == dir_log(
                self.root_path@,
                nodes_view(ns@),
            )
            &&& !self.root_is_dir@ ==> self.history@.len() == 0 && ns@.len() == 0
        }
        &&& self.waiting is Some ==> self.root_is_dir@
        &&& self.result is None ==> self.history@ == stack_log(fs)
        &&& fs.len() > 0 ==> fs[0].path == self.root_path@
        &&& forall|j: int|
            0 <= j < fs.len() ==> {
                &&& #[trigger] fs[j].done.len() <= fs[j].listing.len()
                &&& entries(fs[j].done) == fs[j].listing.take(fs[j].done.len() as int)
                &&& well_built(fs[j].done)
            }
        &&& forall|j: int|
            0 <= j < fs.len() - 1 ==> {
                &&& #[trigger] fs[j].done.len() < fs[j].listing.len()
                &&& fs[j].listing[fs[j].done.len() as int] == (fs[j + 1].path, true)
            }
        &&& self.waiting matches Some(p) ==> {
            &&& fs.len() == 0 ==> p@ == self.root_path@ && self.history@.len() == 0
            &&& fs.len() > 0 ==> {
                &&& fs.last().done.len() < fs.last().listing.len()
                &&& fs.last().listing[fs.last().done.len() as int] == (p@, true)
            }
        }
    }

    /// Starts a walk of the tree under `root`: a directory must be listed,
    /// a file has nothing under it.
    pub fn new(root: &Node) -> (r: TreeWalk)
        ensures
            r.wf(),
            r.root_path() == root@.path,
            r.root_is_dir() == (root@.node_type == NodeType::DIRECTORY),
            r.history().len() == 0,
            root@.node_type == NodeType::DIRECTORY ==> r.waiting_for() == Some(root@.path),
            root@.node_type == NodeType::FILE ==> r.found() == Some(Seq::<NodeView>::empty()),
    {
        let is_dir = root.node_type == NodeType::DIRECTORY;
        let r = if is_dir {
            TreeWalk {
                frames: Vec::new(),
                waiting: Some(root.path.clone()),
                result: None,
                root_path: Ghost(root@.path),
                root_is_dir: Ghost(true),
                history: Ghost(Seq::empty()),
            }
        } else {
            TreeWalk {
                frames: Vec::new(),
                waiting: None,
                result: Some(Vec::new()),
                root_path: Ghost(root@.path),
                root_is_dir: Ghost(false),
                history: Ghost(Seq::empty()),
            }
        };
        proof {
            assert(frames_view(r.frames@) =~= Seq::<FrameView>::empty());
            if !is_dir {
                assert(nodes_view(r.result->0@) =~= Seq::<NodeView>::empty());
            }
        }
        r
    }

    /// The path whose listing the walk needs next, or none when it is over.
    pub fn next_read(&self) -> (r: Option<String>)
        requires
            self.wf(),
        ensures
            r matches Some(p) ==> self.waiting_for() == Some(p@),
            r is None ==> self.waiting_for() is None && self.found() is Some,
    {
        match &self.waiting {
            Some(p) => Some(p.clone()),
            None => None,
        }
    }

    /// Gives the walk the listing of the path it waits for; the walk goes on
    /// until it needs another listing or is over.
    pub fn provide(&mut self, listing: Vec<(String, bool)>)
        requires
            old(self).wf(),
            old(self).waiting_for() is Some,
        ensures
            final(self).wf(),
            final(self).root_path() == old(self).root_path(),
            final(self).root_is_dir() == old(self).root_is_dir(),
            final(self).history() == old(self).history().push(
                (old(self).waiting_for()->0, listing_view(listing@)),
            ),
    {
        let path = match self.waiting.take() {
            Some(p) => p,
            None => String::new(),
        };
        let ghost fs0 = frames_view(self.frames@);
        let frame = Frame { path, listing, done: Vec::new() };
        self.frames.push(frame);
        proof {
            let fs = frames_view(self.frames@);
            assert(fs.drop_last() =~= fs0);
            assert(nodes_view(frame.done@) =~= Seq::<NodeView>::empty());
            assert(sub_log(fs.last().done) =~= Seq::empty());
            self.history@ = self.history@.push((path@, listing_view(listing@)));
            assert(self.history@ =~= stack_log(fs));
            assert(entries(fs.last().done) =~= fs.last().listing.take(0));
            assert forall|j: int| 0 <= j < fs.len() - 1 implies {
                &&& #[trigger] fs[j].done.len() < fs[j].listing.len()
                &&& fs[j].listing[fs[j].done.len() as int] == (fs[j + 1].path, true)
            } by {
                assert(fs[j] == fs0[j]);
                if j < fs.len() - 2 {
                    assert(fs[j + 1] == fs0[j + 1]);
                }
            }
            assert forall|j: int| 0 <= j < fs.len() implies {
                &&& #[trigger] fs[j].done.len() <= fs[j].listing.len()
                &&& entries(fs[j].done) == fs[j].listing.take(fs[j].done.len() as int)
                &&& well_built(fs[j].done)
            } by {
                if j < fs.len() - 1 {
                    assert(fs[j] == fs0[j]);
                }
            }
        }
        self.advance();
    }

    /// Finishes entries until a directory must be listed or the walk is over.
    fn advance(&mut self)
        requires
            old(self).waiting is None,
            old(self).result is None,
            old(self).frames@.len() > 0,
            ({
                let fs = frames_view(old(self).frames@);
                &&& old(self).history@ == stack_log(fs)
                &&& fs[0].path == old(self).root_path@
                &&& old(self).root_is_dir@
                &&& forall|j: int|
                    0 <= j < fs.len() ==> {
                        &&& #[trigger] fs[j].done.len() <= fs[j].listing.len()
                        &&& entries(fs[j].done) == fs[j].listing.take(fs[j].done.len() as int)
                        &&& well_built(fs[j].done)
                    }
                &&& forall|j: int|
                    0 <= j < fs.len() - 1 ==> {
                        &&& #[trigger] fs[j].done.len() < fs[j].listing.len()
                        &&& fs[j].listing[fs[j].done.len() as int] == (fs[j + 1].path, true)
                    }
            }),
        ensures
            final(self).wf(),
            final(self).root_path@ == old(self).root_path@,
            final(self).root_is_dir@ == old(self).root_is_dir@,
            final(self).history@ == old(self).history@,
    {
        loop
            invariant
                self.waiting is None,
                self.result is None,
                self.frames@.len() > 0,
                self.root_path@ == old(self).root_path@,
                self.root_is_dir@ == old(self).root_is_dir@,
                self.root_is_dir@,
                self.history@ == old(self).history@,
                ({
                    let fs = frames_view(self.frames@);
                    &&& self.history@ == stack_log(fs)
                    &&& fs[0].path == self.root_path@
                    &&& forall|j: int|
                        0 <= j < fs.len() ==> {
                            &&& #[trigger] fs[j].done.len() <= fs[j].listing.len()
                            &&& entries(fs[j].done) == fs[j].listing.take(
                                fs[j].done.len() as int,
                            )
                            &&& well_built(fs[j].done)
                        }
                    &&& forall|j: int|
                        0 <= j < fs.len() - 1 ==> {
                            &&& #[trigger] fs[j].done.len() < fs[j].listing.len()
                            &&& fs[j].listing[fs[j].done.len() as int] == (fs[j + 1].path, true)
                        }
                }),
            ensures
                self.wf(),
                self.root_path@ == old(self).root_path@,
                self.root_is_dir@ == old(self).root_is_dir@,
                self.history@ == old(self).history@,
            decreases work_left(frames_view(self.frames@)),
        {
            let ghost fs0 = frames_view(self.frames@);
            let mut top = self.frames.pop().unwrap();
            let k = top.done.len();
            if k < top.listing.len() {
                let is_dir = top.listing[k].1;
                if is_dir {
                    let p = top.listing[k].0.clone();
                    self.frames.push(top);
                    self.waiting = Some(p);
                    proof {
                        assert(frames_view(self.frames@) =~= fs0);
                    }
                    return ;
                }
                let child = Node::from_entry(top.listing[k].0.as_str(), false);
                let ghost done0 = nodes_view(top.done@);
                top.done.push(child);
                self.frames.push(top);
                proof {
                    let fs = frames_view(self.frames@);
                    let t = fs.last();
                    assert(fs.drop_last() =~= fs0.drop_last());
                    assert(t.done =~= done0.push(child@));
                    assert(t.done.drop_last() =~= done0);
                    assert(sub_log(t.done) =~= sub_log(done0));
                    assert(stack_log(fs) =~= stack_log(fs0));
                    assert(entries(t.done) =~= t.listing.take(t.done.len() as int));
                    lemma_well_built_push(done0, child@);
                    assert forall|j: int| 0 <= j < fs.len() implies {
                        &&& #[trigger] fs[j].done.len() <= fs[j].listing.len()
                        &&& entries(fs[j].done) == fs[j].listing.take(fs[j].done.len() as int)
                        &&& well_built(fs[j].done)
                    } by {
                        if j < fs.len() - 1 {
                            assert(fs[j] == fs0[j]);
                        }
                    }
                    assert forall|j: int| 0 <= j < fs.len() - 1 implies {
                        &&& #[trigger] fs[j].done.len() < fs[j].listing.len()
                        &&& fs[j].listing[fs[j].done.len() as int] == (fs[j + 1].path, true)
                    } by {
                        assert(fs[j] == fs0[j]);
                        if j < fs.len() - 2 {
                            assert(fs[j + 1] == fs0[j + 1]);
                        }
                    }
                    assert(work_left(fs) < work_left(fs0));
                }
            } else {
                if self.frames.len() == 0 {
                    let ghost done = nodes_view(top.done@);
                    self.result = Some(top.done);
                    proof {
                        assert(fs0.len() == 1);
                        assert(fs0[0] == frame_view(top));
                        assert(done == fs0[0].done);
                        assert(fs0.drop_last() =~= Seq::<FrameView>::empty());
                        assert(fs0[0].listing.take(fs0[0].done.len() as int) =~= fs0[0].listing);
                        assert(entries(done) == fs0[0].listing);
                        assert(stack_log(fs0.drop_last()) =~= Seq::empty());
                        assert(fs0.last() == fs0[0]);
                        assert(stack_log(fs0) =~= seq![(fs0[0].path, fs0[0].listing)] + sub_log(
                            done,
                        ));
                        assert(self.history@ == dir_log(self.root_path@, done));
                        assert(fs0[0].done.len() <= fs0[0].listing.len());
                        assert(well_built(done));
                        assert(nodes_view(self.result->0@) == done);
                        assert(frames_view(self.frames@) =~= Seq::<FrameView>::empty());
                    }
                    return ;
                }
                let mut parent = self.frames.pop().unwrap();
                proof {
                    assert(frame_view(parent) == fs0[fs0.len() - 2]);
                    assert(frame_view(top) == fs0[fs0.len() - 1]);
                }
                let mut dir = Node::from_entry(top.path.as_str(), true);
                let ghost done = nodes_view(top.done@);
                dir.add_children(top.done);
                let ghost pdone0 = nodes_view(parent.done@);
                parent.done.push(dir);
                self.frames.push(parent);
                proof {
                    let fs = frames_view(self.frames@);
                    let t = fs.last();
                    let m = fs0.len();
                    assert(fs.len() == m - 1);
                    assert(fs.drop_last() =~= fs0.drop_last().drop_last());
                    assert(fs0[m - 1].listing.take(done.len() as int) =~= fs0[m - 1].listing);
                    assert(dir@.children =~= done);
                    assert(t.done =~= pdone0.push(dir@));
                    assert(t.done.drop_last() =~= pdone0);
                    assert(entry_of(dir@) == (fs0[m - 1].path, true));
                    assert(fs0[m - 2].done.len() < fs0[m - 2].listing.len());
                    assert(pdone0 == fs0[m - 2].done);
                    assert(fs0[m - 2].listing[pdone0.len() as int] == (fs0[m - 1].path, true));
                    assert(entries(t.done) =~= t.listing.take(t.done.len() as int));
                    assert(sub_log(t.done) =~= sub_log(pdone0) + dir_log(fs0[m - 1].path, done));
                    assert(entries(done) == fs0[m - 1].listing);
                    assert(stack_log(fs0) =~= stack_log(fs0.drop_last()) + seq![
                        (fs0[m - 1].path, fs0[m - 1].listing),
                    ] + sub_log(done));
                    assert(stack_log(fs0.drop_last()) =~= stack_log(fs.drop_last()) + seq![
                        (t.path, t.listing),
                    ] + sub_log(pdone0));
                    assert(stack_log(fs) =~= stack_log(fs0));
                    lemma_well_built_push(pdone0, dir@);
                    assert forall|j: int| 0 <= j < fs.len() implies {
                        &&& #[trigger] fs[j].done.len() <= fs[j].listing.len()
                        &&& entries(fs[j].done) == fs[j].listing.take(fs[j].done.len() as int)
                        &&& well_built(fs[j].done)
                    } by {
                        if j < fs.len() - 1 {
                            assert(fs[j] == fs0[j]);
                        }
                    }
                    assert forall|j: int| 0 <= j < fs.len() - 1 implies {
                        &&& #[trigger] fs[j].done.len() < fs[j].listing.len()
                        &&& fs[j].listing[fs[j].done.len() as int] == (fs[j + 1].path, true)
                    } by {
                        assert(fs[j] == fs0[j]);
                        if j < fs.len() - 2 {
                            assert(fs[j + 1] == fs0[j + 1]);
                        }
                    }
                    assert(work_left(fs0) == work_left(fs0.drop_last()) + 1);
                    assert(work_left(fs) < work_left(fs0));
                }
            }
        }
    }

    /// The nodes under the root, once the walk is over: every node is the
    /// node of the entry it was listed as, with its children added, and the
    /// listings given were those of the root and then of each sub-directory,
    /// depth first.
    pub fn finish(self) -> (r: Vec<Node>)
        requires
            self.wf(),
            self.waiting_for() is None,
        ensures
            self.found() == Some(nodes_view(r@)),
            well_built(nodes_view(r@)),
            self.root_is_dir() ==> self.history() == dir_log(self.root_path(), nodes_view(r@)),
            !self.root_is_dir() ==> self.history().len() == 0 && r@.len() == 0,
    {
        match self.result {
            Some(ns) => ns,
            None => Vec::new(),
        }
    }
}

proof fn lemma_well_built_push(ns: Seq<NodeView>, n: NodeView)
    requires
        well_built(ns),
        (NodeView { children: Seq::empty(), ..n }) == listed_node(
            n.path,
            n.node_type == NodeType::DIRECTORY,
        ),
        n.node_type == NodeType::FILE ==> n.children.len() == 0,
        n.node_type == NodeType::DIRECTORY ==> well_built(n.children),
    ensures
        well_built(ns.push(n)),
{
    let t = ns.push(n);
    assert forall|i: int| 0 <= i < t.len() implies {
        &&& (NodeView { children: Seq::empty(), ..#[trigger] t[i] }) == listed_node(
            t[i].path,
            t[i].node_type == NodeType::DIRECTORY,
        )
        &&& t[i].node_type == NodeType::FILE ==> t[i].children.len() == 0
        &&& t[i].node_type == NodeType::DIRECTORY ==> well_built(t[i].children)
    } by {
        if i < ns.len() {
            assert(t[i] == ns[i]);
        }
    }
}

impl Node {
    /// The nodes for the entries of a directory's listing, in order; a file
    /// has none.
    pub fn parse_children(node: &Node, listing: &Vec<(String, bool)>) -> (r: Vec<Node>)
        ensures
            node@.node_type == NodeType::FILE ==> r@.len() == 0,
            node@.node_type == NodeType::DIRECTORY ==> nodes_view(r@) == Seq::new(
                listing@.len(),
                |i: int| listed_node(listing@[i].0@, listing@[i].1),
            ),
    {
        let mut out: Vec<Node> = Vec::new();
        if node.node_type == NodeType::FILE {
            return out;
        }
        let n = listing.len();
        for i in 0..n
            invariant
                n == listing@.len(),
                out@.len() == i,
                forall|j: int|
                    0 <= j < i ==> #[trigger] out@[j]@ == listed_node(
                        listing@[j].0@,
                        listing@[j].1,
                    ),
        {
            out.push(Node::from_entry(listing[i].0.as_str(), listing[i].1));
        }
        assert(nodes_view(out@) =~= Seq::new(
            listing@.len(),
            |i: int| listed_node(listing@[i].0@, listing@[i].1),
        ));
        out
    }

    /// Starts the walk of the tree under `node`; see [`TreeWalk`].
    pub fn parse_tree(node: &Node) -> (r: TreeWalk)
        ensures
            r.wf(),
            r.root_path() == node@.path,
            r.root_is_dir() == (node@.node_type == NodeType::DIRECTORY),
            r.history().len() == 0,
            node@.node_type == NodeType::DIRECTORY ==> r.waiting_for() == Some(node@.path),
            node@.node_type == NodeType::FILE ==> r.found() == Some(Seq::<NodeView>::empty()),
    {
        TreeWalk::new(node)
    }
}

/// The listings read below a single node.
pub open spec fn node_log(n: NodeView) -> Seq<(Seq<char>, ListingView)> {
    if n.node_type == NodeType::DIRECTORY {
        dir_log(n.path, n.children)
    } else {
        Seq::empty()
    }
}

proof fn lemma_sub_log_front(ns: Seq<NodeView>)
    requires
        ns.len() > 0,
    ensures
        sub_log(ns) == node_log(ns[0]) + sub_log(ns.drop_first()),
    decreases ns.len(),
{
    if ns.len() == 1 {
        assert(ns.drop_last() =~= Seq::<NodeView>::empty());
        assert(ns.drop_first() =~= Seq::<NodeView>::empty());
        assert(sub_log(ns) =~= node_log(ns[0]) + sub_log(ns.drop_first()));
    } else {
        let t = ns.drop_last();
        lemma_sub_log_front(t);
        assert(t.drop_first() =~= ns.drop_first().drop_last());
        assert(ns.drop_first().last() == ns.last());
        assert(t[0] == ns[0]);
        assert(sub_log(ns) =~= node_log(ns[0]) + sub_log(ns.drop_first()));
    }
}

proof fn lemma_dir_log_prefix(
    p: Seq<char>,
    a: Seq<NodeView>,
    b: Seq<NodeView>,
    x: Seq<(Seq<char>, ListingView)>,
)
    requires
        well_built(a),
        well_built(b),
        dir_log(p, a).is_prefix_of(x),
        dir_log(p, b).is_prefix_of(x),
    ensures
        a == b,
    decreases a, 1nat,
{
    assert(x[0] == dir_log(p, a)[0]);
    assert(x[0] == dir_log(p, b)[0]);
    let y = x.skip(1);
    assert(sub_log(a).is_prefix_of(y)) by {
        assert forall|i: int| 0 <= i < sub_log(a).len() implies sub_log(a)[i] == y[i] by {
            assert(dir_log(p, a)[i + 1] == sub_log(a)[i]);
        }
    }
    assert(sub_log(b).is_prefix_of(y)) by {
        assert forall|i: int| 0 <= i < sub_log(b).len() implies sub_log(b)[i] == y[i] by {
            assert(dir_log(p, b)[i + 1] == sub_log(b)[i]);
        }
    }
    lemma_sub_log_prefix(a, b, y);
}

proof fn lemma_sub_log_prefix(a: Seq<NodeView>, b: Seq<NodeView>, y: Seq<(Seq<char>, ListingView)>)
    requires
        well_built(a),
        well_built(b),
        entries(a) == entries(b),
        sub_log(a).is_prefix_of(y),
        sub_log(b).is_prefix_of(y),
    ensures
        a == b,
    decreases a, 0nat,
{
    assert(a.len() == entries(a).len());
    assert(b.len() == entries(b).len());
    if a.len() > 0 {
        lemma_sub_log_front(a);
        lemma_sub_log_front(b);
        let a0 = a[0];
        let b0 = b[0];
        assert(entries(a)[0] == entries(b)[0]);
        assert(a0.path == b0.path);
        assert(a0.node_type == b0.node_type);
        // the first nodes agree but for their children
        assert((NodeView { children: Seq::empty(), ..a0 }) == (NodeView {
            children: Seq::empty(),
            ..b0
        }));
        if a0.node_type == NodeType::DIRECTORY {
            assert(well_built(a0.children));
            assert(well_built(b0.children));
            assert(dir_log(a0.path, a0.children).is_prefix_of(y)) by {
                assert forall|i: int| 0 <= i < node_log(a0).len() implies node_log(a0)[i]
                    == y[i] by {
                    assert(sub_log(a)[i] == node_log(a0)[i]);
                }
            }
            assert(dir_log(b0.path, b0.children).is_prefix_of(y)) by {
                assert forall|i: int| 0 <= i < node_log(b0).len() implies node_log(b0)[i]
                    == y[i] by {
                    assert(sub_log(b)[i] == node_log(b0)[i]);
                }
            }
            lemma_dir_log_prefix(a0.path, a0.children, b0.children, y);
        } else {
            assert(a0.children.len() == 0);
            assert(b0.children.len() == 0);
            assert(a0.children =~= b0.children);
        }
        assert(a0 == b0);
        let k = node_log(a0).len() as int;
        let ra = a.drop_first();
        let rb = b.drop_first();
        assert(well_built(ra)) by {
            assert forall|i: int| 0 <= i < ra.len() implies #[trigger] ra[i] == a[i + 1] by {}
        }
        assert(well_built(rb)) by {
            assert forall|i: int| 0 <= i < rb.len() implies #[trigger] rb[i] == b[i + 1] by {}
        }
        assert(entries(ra) =~= entries(a).drop_first());
        assert(entries(rb) =~= entries(b).drop_first());
        assert(sub_log(ra).is_prefix_of(y.skip(k))) by {
            assert forall|i: int| 0 <= i < sub_log(ra).len() implies sub_log(ra)[i] == y.skip(
                k,
            )[i] by {
                assert(sub_log(a)[k + i] == sub_log(ra)[i]);
            }
        }
        assert(sub_log(rb).is_prefix_of(y.skip(k))) by {
            assert forall|i: int| 0 <= i < sub_log(rb).len() implies sub_log(rb)[i] == y.skip(
                k,
            )[i] by {
                assert(sub_log(b)[k + i] == sub_log(rb)[i]);
            }
        }
        lemma_sub_log_prefix(ra, rb, y.skip(k));
        assert(a =~= seq![a0] + ra);
        assert(b =~= seq![b0] + rb);
    } else {
        assert(a =~= b);
    }
}

/// What a walk finds is fixed by the listings it is given: two trees built
/// from their entries whose listings, read depth first, are the same, are
/// the same tree.
pub proof fn law_walk_is_determined_by_listings(p: Seq<char>, a: Seq<NodeView>, b: Seq<NodeView>)
    requires
        well_built(a),
        well_built(b),
        dir_log(p, a) == dir_log(p, b),
    ensures
        a == b,
{
    assert(dir_log(p, a).is_prefix_of(dir_log(p, a)));
    lemma_dir_log_prefix(p, a, b, dir_log(p, a));
}

} // verus!
