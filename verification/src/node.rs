//! The tree of files and directories that a Filefile describes.
use vstd::prelude::*;

use crate::operations::{op_from_tokens, OpError, OpErrorView, OpView, Operation};
use crate::paths::{file_name, join, combine_path, path_file_name};
use crate::yaml::{parse_yaml, parsed_yaml, printable, text_of, write_yaml, yaml_text, YamlValue, YamlView};

verus! {

/// Whether a node is a file or a directory.
#[allow(non_camel_case_types)]
#[derive(Debug, Clone, Copy, PartialEq, Eq, Structural)]
pub enum NodeType {
    FILE,
    DIRECTORY,
}

impl NodeType {
    /// The kind of a path, given whether a directory is there.
    pub fn get(is_dir: bool) -> (r: NodeType)
        ensures
            r == (if is_dir {
                NodeType::DIRECTORY
            } else {
                NodeType::FILE
            }),
    {
        if is_dir {
            NodeType::DIRECTORY
        } else {
            NodeType::FILE
        }
    }
}

/// A file or directory: where it is, its name, what it holds.
#[derive(Debug)]
pub struct Node {
    pub path: String,
    pub basename: String,
    pub node_type: NodeType,
    pub children: Vec<Node>,
    pub op: Option<Operation>,
    pub contents: Option<String>,
}

/// What a [`Node`] holds, as mathematical values.
pub struct NodeView {
    pub path: Seq<char>,
    pub basename: Seq<char>,
    pub node_type: NodeType,
    pub children: Seq<NodeView>,
    pub op: Option<OpView>,
    pub contents: Option<Seq<char>>,
}

pub open spec fn op_view(op: Option<Operation>) -> Option<OpView> {
    match op {
        Some(o) => Some(o@),
        None => None,
    }
}

pub open spec fn text_view(s: Option<String>) -> Option<Seq<char>> {
    match s {
        Some(t) => Some(t@),
        None => None,
    }
}

pub open spec fn node_view(n: Node) -> NodeView
    decreases n,
{
    NodeView {
        path: n.path@,
        basename: n.basename@,
        node_type: n.node_type,
        children: Seq::new(
            n.children@.len(),
            |i: int|
                if 0 <= i < n.children@.len() {
                    node_view(n.children@[i])
                } else {
                    vstd::pervasive::arbitrary()
                },
        ),
        op: op_view(n.op),
        contents: text_view(n.contents),
    }
}

impl View for Node {
    type V = NodeView;

    open spec fn view(&self) -> NodeView {
        node_view(*self)
    }
}

/// The views of a sequence of nodes.
pub open spec fn nodes_view(s: Seq<Node>) -> Seq<NodeView> {
    Seq::new(s.len(), |i: int| s[i]@)
}

/// The name a node gets when its path has no final name.
pub open spec fn no_basename() -> Seq<char> {
    "Could not get the basename."@
}

/// The node that `Node::new(name)` makes.
pub open spec fn new_node(name: Seq<char>) -> NodeView {
    NodeView {
        path: name,
        basename: match file_name(name) {
            Some(b) => b,
            None => no_basename(),
        },
        node_type: NodeType::FILE,
        children: Seq::empty(),
        op: None,
        contents: None,
    }
}

impl Clone for Node {
    fn clone(&self) -> (r: Self)
        ensures
            r@ == self@,
        decreases self,
    {
        let mut children: Vec<Node> = Vec::new();
        let n = self.children.len();
        for i in 0..n
            invariant
                n == self.children@.len(),
                children@.len() == i,
                forall|j: int| 0 <= j < i ==> #[trigger] children@[j]@ == self.children@[j]@,
        {
            children.push(self.children[i].clone());
        }
        let op = match &self.op {
            Some(o) => Some(o.clone()),
            None => None,
        };
        let contents = match &self.contents {
            Some(c) => Some(c.clone()),
            None => None,
        };
        let r = Node {
            path: self.path.clone(),
            basename: self.basename.clone(),
            node_type: self.node_type,
            children,
            op,
            contents,
        };
        assert forall|j: int| 0 <= j < n implies r@.children[j] == self@.children[j] by {
            assert(r@.children[j] == r.children@[j]@);
            assert(self@.children[j] == self.children@[j]@);
        }
        assert(r@.children =~= self@.children);
        r
    }
}

impl Node {
    /// A file node at `name`, named by the final component of `name`.
    pub fn new(name: &str) -> (r: Node)
        ensures
            r@ == new_node(name@),
    {
        let basename = match path_file_name(name) {
            Some(b) => b.to_string(),
            None => "Could not get the basename.".to_string(),
        };
        let r = Node {
            path: name.to_string(),
            basename,
            node_type: NodeType::FILE,
            children: Vec::new(),
            op: None,
            contents: None,
        };
        assert(r@.children =~= Seq::<NodeView>::empty());
        r
    }

    /// The node for a directory entry at `path`, a directory when `is_dir`.
    pub fn from_entry(path: &str, is_dir: bool) -> (r: Node)
        ensures
            r@ == (NodeView {
                node_type: if is_dir {
                    NodeType::DIRECTORY
                } else {
                    NodeType::FILE
                },
                ..new_node(path@)
            }),
    {
        let mut node = Node::new(path);
        if is_dir {
            node.node_type = NodeType::DIRECTORY;
        }
        assert(node@.children =~= new_node(path@).children);
        node
    }

    /// Puts `dirname` in front of the node's path.
    pub fn prefix_path(&mut self, dirname: &str)
        ensures
            final(self)@ == (NodeView { path: join(dirname@, old(self)@.path), ..old(self)@ }),
    {
        let p = combine_path(dirname, self.path.as_str());
        self.path = p;
        assert(final(self)@.children =~= old(self)@.children);
    }

    /// The node's path as a string.
    pub fn path_as_str(&self) -> (r: String)
        ensures
            r@ == self@.path,
    {
        self.path.clone()
    }

    /// Adds `child` as the node's last child; the node is then a directory.
    pub fn add_child(&mut self, child: Node)
        ensures
            final(self)@ == (NodeView {
                node_type: NodeType::DIRECTORY,
                children: old(self)@.children.push(child@),
                ..old(self)@
            }),
    {
        self.children.push(child);
        self.node_type = NodeType::DIRECTORY;
        assert(final(self)@.children =~= old(self)@.children.push(child@));
    }

    /// Adds `children` after the node's children, in order; the node is a
    /// directory when any was added.
    pub fn add_children(&mut self, children: Vec<Node>)
        ensures
            final(self)@ == (NodeView {
                node_type: if children@.len() > 0 {
                    NodeType::DIRECTORY
                } else {
                    old(self)@.node_type
                },
                children: old(self)@.children + nodes_view(children@),
                ..old(self)@
            }),
    {
        let mut rest = children;
        let ghost added = nodes_view(rest@);
        let ghost start = self@;
        let ghost n = rest@.len();
        assert(added.skip(0) =~= added);
        while rest.len() > 0
            invariant
                rest@.len() <= n,
                added.len() == n,
                nodes_view(rest@) == added.skip(n - rest@.len()),
                self@ == (NodeView {
                    node_type: if n - rest@.len() > 0 {
                        NodeType::DIRECTORY
                    } else {
                        start.node_type
                    },
                    children: start.children + added.take(n - rest@.len()),
                    ..start
                }),
            decreases rest@.len(),
        {
            let ghost old_rest = rest@;
            let c = rest.remove(0);
            proof {
                assert(nodes_view(old_rest)[0] == c@);
                assert(added.skip(n - old_rest.len())[0] == added[n - old_rest.len()]);
                assert forall|j: int| 0 <= j < rest@.len() implies nodes_view(rest@)[j] == added.skip(
                    n - rest@.len(),
                )[j] by {
                    assert(rest@[j] == old_rest[j + 1]);
                    assert(nodes_view(old_rest)[j + 1] == added.skip(n - old_rest.len())[j + 1]);
                }
                assert(nodes_view(rest@) =~= added.skip(n - rest@.len()));
            }
            self.add_child(c);
            proof {
                assert(added.take(n - rest@.len()) =~= added.take(n - old_rest.len()).push(c@));
            }
        }
        assert(added.take(n as int) =~= added);
    }
}

/// Why a YAML document is not a Filefile.
#[derive(Debug)]
pub enum ConvertError {
    /// A mapping key is not text.
    KeyNotText,
    /// A tagged value names no operation, or lacks its text.
    BadOperation(OpError),
}

pub enum ConvertErrorView {
    KeyNotText,
    BadOperation(OpErrorView),
}

impl View for ConvertError {
    type V = ConvertErrorView;

    open spec fn view(&self) -> ConvertErrorView {
        match self {
            ConvertError::KeyNotText => ConvertErrorView::KeyNotText,
            ConvertError::BadOperation(e) => ConvertErrorView::BadOperation(e@),
        }
    }
}

/// The node for the Filefile entry `key: val`.
pub open spec fn entry_node(key: YamlView, val: YamlView) -> Result<NodeView, ConvertErrorView>
    decreases val,
{
    match text_of(key) {
        None => Err(ConvertErrorView::KeyNotText),
        Some(name) => {
            let n = new_node(name);
            match val {
                YamlView::Text(s) => Ok(NodeView { contents: Some(s), ..n }),
                YamlView::Mapping(es) => match entries_nodes(es) {
                    Ok(children) => Ok(
                        NodeView { node_type: NodeType::DIRECTORY, children: children, ..n },
                    ),
                    Err(e) => Err(e),
                },
                YamlView::Tagged(tag, inner) => {
                    let args = match text_of(*inner) {
                        Some(t) => t,
                        None => Seq::empty(),
                    };
                    match op_from_tokens(tag, args) {
                        Ok(op) => Ok(NodeView { op: Some(op), ..n }),
                        Err(e) => Err(ConvertErrorView::BadOperation(e)),
                    }
                },
                _ => Ok(n),
            }
        },
    }
}

/// The nodes for the Filefile entries `es`, in order; the first entry that
/// is no node decides the error.
pub open spec fn entries_nodes(es: Seq<(YamlView, YamlView)>) -> Result<
    Seq<NodeView>,
    ConvertErrorView,
>
    decreases es,
{
    if es.len() == 0 {
        Ok(Seq::empty())
    } else {
        match entry_node(es[0].0, es[0].1) {
            Err(e) => Err(e),
            Ok(n) => match entries_nodes(es.drop_first()) {
                Ok(ns) => Ok(seq![n] + ns),
                Err(e) => Err(e),
            },
        }
    }
}

/// The top-level nodes of a Filefile: one per entry of its root mapping,
/// none when the root is not a mapping.
pub open spec fn value_nodes(v: YamlView) -> Result<Seq<NodeView>, ConvertErrorView> {
    match v {
        YamlView::Mapping(es) => entries_nodes(es),
        _ => Ok(Seq::empty()),
    }
}

pub open spec fn nodes_result_view(r: Result<Vec<Node>, ConvertError>) -> Result<
    Seq<NodeView>,
    ConvertErrorView,
> {
    match r {
        Ok(ns) => Ok(nodes_view(ns@)),
        Err(e) => Err(e@),
    }
}

pub open spec fn then_nodes(done: Seq<NodeView>, r: Result<Seq<NodeView>, ConvertErrorView>) -> Result<
    Seq<NodeView>,
    ConvertErrorView,
> {
    match r {
        Ok(ns) => Ok(done + ns),
        Err(e) => Err(e),
    }
}

pub open spec fn entries_view(es: Seq<(YamlValue, YamlValue)>) -> Seq<(YamlView, YamlView)> {
    Seq::new(es.len(), |i: int| (es[i].0@, es[i].1@))
}

fn convert_entry(key: &YamlValue, val: &YamlValue) -> (r: Result<Node, ConvertError>)
    ensures
        match r {
            Ok(n) => entry_node(key@, val@) == Ok::<NodeView, ConvertErrorView>(n@),
            Err(e) => entry_node(key@, val@) == Err::<NodeView, ConvertErrorView>(e@),
        },
    decreases val,
{
    let name = match key.as_str() {
        Some(name) => name,
        None => return Err(ConvertError::KeyNotText),
    };
    let mut node = Node::new(name);
    match val {
        YamlValue::Text(s) => {
            node.contents = Some(s.clone());
            node.node_type = NodeType::FILE;
        },
        YamlValue::Null => {
            node.node_type = NodeType::FILE;
        },
        YamlValue::Mapping(es) => {
            node.node_type = NodeType::DIRECTORY;
            assert(entries_view(es@) =~= match val@ {
                YamlView::Mapping(v) => v,
                _ => Seq::empty(),
            });
            let children = match convert_entries(es) {
                Ok(children) => children,
                Err(e) => return Err(e),
            };
            node.add_children(children);
            assert(node@.children =~= nodes_view(children@));
        },
        YamlValue::Tagged(tag, inner) => {
            let args = match inner.as_str() {
                Some(t) => t,
                None => "",
            };
            proof {
                reveal_strlit("");
            }
            match Operation::from_tokens(tag.as_str(), args) {
                Ok(op) => node.op = Some(op),
                Err(e) => return Err(ConvertError::BadOperation(e)),
            }
        },
        _ => {},
    }
    Ok(node)
}

fn convert_entries(es: &Vec<(YamlValue, YamlValue)>) -> (r: Result<Vec<Node>, ConvertError>)
    ensures
        nodes_result_view(r) == entries_nodes(entries_view(es@)),
    decreases es,
{
    let ghost all = entries_view(es@);
    let mut out: Vec<Node> = Vec::new();
    let n = es.len();
    let mut i: usize = 0;
    assert(all.skip(0) =~= all);
    while i < n
        invariant
            n == es@.len() == all.len(),
            all == entries_view(es@),
            i <= n,
            entries_nodes(all) == then_nodes(nodes_view(out@), entries_nodes(all.skip(i as int))),
        decreases n - i,
    {
        let node = convert_entry(&es[i].0, &es[i].1);
        proof {
            let rest = all.skip(i as int);
            assert(rest[0] == (es@[i as int].0@, es@[i as int].1@));
            assert(rest.drop_first() =~= all.skip(i + 1));
        }
        match node {
            Ok(node) => {
                let ghost before = nodes_view(out@);
                out.push(node);
                proof {
                    assert(nodes_view(out@) =~= before + seq![node@]);
                    match entries_nodes(all.skip(i + 1)) {
                        Ok(ns) => {
                            assert(before + (seq![node@] + ns) =~= nodes_view(out@) + ns);
                        },
                        Err(_) => {},
                    }
                }
            },
            Err(e) => {
                return Err(e);
            },
        }
        i = i + 1;
    }
    proof {
        assert(all.skip(n as int) =~= Seq::<(YamlView, YamlView)>::empty());
        assert(nodes_view(out@) + Seq::<NodeView>::empty() =~= nodes_view(out@));
    }
    Ok(out)
}

/// The nodes a Filefile describes: one per entry of its root mapping, in
/// order. Text gives a file with that text, an empty value an empty file, a
/// mapping a directory of the nested entries, and a tag an operation.
/// A root that is not a mapping describes nothing.
pub fn convert_value(value: &YamlValue) -> (r: Result<Vec<Node>, ConvertError>)
    ensures
        nodes_result_view(r) == value_nodes(value@),
{
    match value {
        YamlValue::Mapping(es) => {
            assert(entries_view(es@) =~= match value@ {
                YamlView::Mapping(v) => v,
                _ => Seq::empty(),
            });
            convert_entries(es)
        },
        _ => {
            let out: Vec<Node> = Vec::new();
            assert(nodes_view(out@) =~= Seq::<NodeView>::empty());
            Ok(out)
        },
    }
}

/// The index of the first entry of `es` under `key`, or `-1`.
pub open spec fn key_index(es: Seq<(YamlView, YamlView)>, key: YamlView) -> int
    decreases es.len(),
{
    if es.len() == 0 {
        -1
    } else if es.last().0 == key {
        let i = key_index(es.drop_last(), key);
        if i >= 0 {
            i
        } else {
            es.len() - 1
        }
    } else {
        key_index(es.drop_last(), key)
    }
}

/// `es` with `val` under `key`: an entry already under `key` gets the new
/// value in its place, otherwise the entry goes last.
pub open spec fn insert_entry(es: Seq<(YamlView, YamlView)>, key: YamlView, val: YamlView) -> Seq<
    (YamlView, YamlView),
> {
    let i = key_index(es, key);
    if i >= 0 {
        es.update(i, (es[i].0, val))
    } else {
        es.push((key, val))
    }
}

/// The YAML value a node is written as: a file is an empty value, a
/// directory the mapping of its children.
pub open spec fn node_yaml(n: NodeView) -> YamlView
    decreases n,
{
    match n.node_type {
        NodeType::FILE => YamlView::Null,
        NodeType::DIRECTORY => YamlView::Mapping(nodes_mapping(n.children)),
    }
}

/// The mapping from the names of `ns` to their YAML values, each inserted
/// in turn.
pub open spec fn nodes_mapping(ns: Seq<NodeView>) -> Seq<(YamlView, YamlView)>
    decreases ns,
{
    if ns.len() == 0 {
        Seq::empty()
    } else {
        insert_entry(
            nodes_mapping(ns.drop_last()),
            YamlView::Text(ns.last().basename),
            node_yaml(ns.last()),
        )
    }
}

proof fn lemma_key_index(es: Seq<(YamlView, YamlView)>, key: YamlView)
    ensures
        -1 <= key_index(es, key) < es.len(),
        key_index(es, key) >= 0 ==> es[key_index(es, key)].0 == key,
        key_index(es, key) >= 0 ==> forall|j: int|
            0 <= j < key_index(es, key) ==> es[j].0 != key,
        key_index(es, key) < 0 ==> forall|j: int| 0 <= j < es.len() ==> es[j].0 != key,
    decreases es.len(),
{
    if es.len() > 0 {
        let t = es.drop_last();
        lemma_key_index(t, key);
        assert forall|j: int| 0 <= j < t.len() implies t[j] == es[j] by {}
    }
}

/// Puts `val` under the text key `key`, as a YAML mapping does.
fn mapping_insert(es: &mut Vec<(YamlValue, YamlValue)>, key: String, val: YamlValue)
    ensures
        entries_view(final(es)@) == insert_entry(
            entries_view(old(es)@),
            YamlView::Text(key@),
            val@,
        ),
{
    let ghost k = YamlView::Text(key@);
    proof {
        lemma_key_index(entries_view(es@), k);
    }
    let n = es.len();
    let mut i: usize = 0;
    while i < n
        invariant
            n == es@.len(),
            es@ == old(es)@,
            i <= n,
            k == YamlView::Text(key@),
            forall|j: int| 0 <= j < i ==> entries_view(es@)[j].0 != k,
        decreases n - i,
    {
        let same = match &es[i].0 {
            YamlValue::Text(s) => s.eq(&key),
            _ => false,
        };
        if same {
            proof {
                lemma_key_index(entries_view(es@), k);
                assert(entries_view(es@)[i as int].0 == k);
            }
            let ghost before = entries_view(es@);
            es.set(i, (YamlValue::Text(key), val));
            proof {
                assert(key_index(before, k) == i);
                assert(entries_view(es@) =~= before.update(i as int, (before[i as int].0, val@)));
            }
            return ;
        }
        i = i + 1;
    }
    let ghost before = entries_view(es@);
    es.push((YamlValue::Text(key), val));
    proof {
        assert(key_index(before, k) < 0);
        assert(entries_view(es@) =~= before.push((k, val@)));
    }
}

fn node_to_yaml(node: &Node) -> (r: YamlValue)
    ensures
        r@ == node_yaml(node@),
    decreases node,
{
    match node.node_type {
        NodeType::FILE => {
            let r = YamlValue::Null;
            assert(node@.node_type == NodeType::FILE);
            assert(r@ == YamlView::Null);
            r
        },
        NodeType::DIRECTORY => {
            let es = children_to_mapping(&node.children);
            let r = YamlValue::Mapping(es);
            assert(node@.children =~= nodes_view(node.children@));
            assert(entries_view(es@) =~= match r@ {
                YamlView::Mapping(v) => v,
                _ => Seq::empty(),
            });
            r
        },
    }
}

fn children_to_mapping(nodes: &Vec<Node>) -> (r: Vec<(YamlValue, YamlValue)>)
    ensures
        entries_view(r@) == nodes_mapping(nodes_view(nodes@)),
    decreases nodes,
{
    let mut es: Vec<(YamlValue, YamlValue)> = Vec::new();
    let n = nodes.len();
    assert(entries_view(es@) =~= nodes_mapping(nodes_view(nodes@).take(0)));
    for i in 0..n
        invariant
            n == nodes@.len(),
            entries_view(es@) == nodes_mapping(nodes_view(nodes@).take(i as int)),
    {
        let child = &nodes[i];
        let v = node_to_yaml(child);
        mapping_insert(&mut es, child.basename.clone(), v);
        proof {
            let t = nodes_view(nodes@).take(i + 1);
            assert(t.drop_last() =~= nodes_view(nodes@).take(i as int));
            assert(t.last() == child@);
        }
    }
    assert(nodes_view(nodes@).take(n as int) =~= nodes_view(nodes@));
    es
}

/// The YAML value a node is written as: a file is an empty value and a
/// directory the mapping from its children's names to their values.
/// Contents and operations are not written.
pub fn convert_node(node: Node) -> (r: YamlValue)
    ensures
        r@ == node_yaml(node@),
{
    node_to_yaml(&node)
}

/// The mapping from the names of top-level nodes to their YAML values.
pub fn convert_nodes(nodes: Vec<Node>) -> (r: YamlValue)
    ensures
        r@ == YamlView::Mapping(nodes_mapping(nodes_view(nodes@))),
{
    let es = children_to_mapping(&nodes);
    let r = YamlValue::Mapping(es);
    assert(entries_view(es@) =~= match r@ {
        YamlView::Mapping(v) => v,
        _ => Seq::empty(),
    });
    r
}

proof fn lemma_node_printable(n: NodeView)
    ensures
        printable(node_yaml(n)),
    decreases n,
{
    if n.node_type == NodeType::DIRECTORY {
        let es = nodes_mapping(n.children);
        lemma_mapping_printable(n.children);
        assert(node_yaml(n) == YamlView::Mapping(es));
        assert forall|i: int| 0 <= i < es.len() implies printable(#[trigger] es[i].0) && printable(
            es[i].1,
        ) by {}
    }
}

proof fn lemma_mapping_printable(ns: Seq<NodeView>)
    ensures
        forall|i: int|
            0 <= i < nodes_mapping(ns).len() ==> printable(#[trigger] nodes_mapping(ns)[i].0)
                && printable(nodes_mapping(ns)[i].1),
    decreases ns,
{
    if ns.len() > 0 {
        let es = nodes_mapping(ns.drop_last());
        let key = YamlView::Text(ns.last().basename);
        lemma_mapping_printable(ns.drop_last());
        lemma_node_printable(ns.last());
        lemma_key_index(es, key);
        assert(printable(key));
    }
}

/// The nodes that the text of a Filefile describes, as [`convert_value`]
/// makes them from the document that serde_yaml reads; none where serde_yaml
/// refuses the text.
pub fn nodes_of_text(text: &str) -> (r: Option<Result<Vec<Node>, ConvertError>>)
    ensures
        r is None <==> parsed_yaml(text@) is None,
        r matches Some(res) ==> (parsed_yaml(text@) matches Some(v) && nodes_result_view(res)
            == value_nodes(v)),
{
    match parse_yaml(text) {
        Some(v) => Some(convert_value(&v)),
        None => None,
    }
}

/// The text of the Filefile that describes `nodes`: what serde_yaml writes
/// for the mapping that [`convert_nodes`] makes of them, or none where it
/// refuses to write it.
pub fn filefile_text(nodes: Vec<Node>) -> (r: Option<String>)
    ensures
        r matches Some(t) ==> yaml_text(YamlView::Mapping(nodes_mapping(nodes_view(nodes@))))
            == Some(t@),
        r is None ==> yaml_text(YamlView::Mapping(nodes_mapping(nodes_view(nodes@)))) is None,
{
    let ghost ns = nodes_view(nodes@);
    let value = convert_nodes(nodes);
    proof {
        lemma_mapping_printable(ns);
    }
    write_yaml(&value)
}

/// A name that is one path component: not empty, without `/`, and neither
/// `.` nor `..`.
pub open spec fn plain_name(b: Seq<char>) -> bool {
    &&& b.len() > 0
    &&& forall|k: int| 0 <= k < b.len() ==> #[trigger] b[k] != '/'
    &&& b != seq!['.']
    &&& b != crate::paths::dot_dot()
}

/// Every node of `ns`, at any depth, has a plain name, and siblings have
/// different names.
pub open spec fn plain_tree(ns: Seq<NodeView>) -> bool
    decreases ns,
{
    &&& forall|i: int| 0 <= i < ns.len() ==> plain_name(#[trigger] ns[i].basename)
    &&& forall|i: int, j: int|
        0 <= i < j < ns.len() ==> #[trigger] ns[i].basename != #[trigger] ns[j].basename
    &&& forall|i: int|
        0 <= i < ns.len() ==> (#[trigger] ns[i].node_type == NodeType::DIRECTORY ==> plain_tree(
            ns[i].children,
        ))
}

/// What survives of a node when it is written out and read back: its name
/// (also as its path), its kind, and for a directory the outlines of its
/// children.
pub open spec fn outline(n: NodeView) -> NodeView
    decreases n,
{
    NodeView {
        path: n.basename,
        basename: n.basename,
        node_type: n.node_type,
        children: if n.node_type == NodeType::DIRECTORY {
            Seq::new(
                n.children.len(),
                |i: int|
                    if 0 <= i < n.children.len() {
                        outline(n.children[i])
                    } else {
                        vstd::pervasive::arbitrary()
                    },
            )
        } else {
            Seq::empty()
        },
        op: None,
        contents: None,
    }
}

pub open spec fn outlines(ns: Seq<NodeView>) -> Seq<NodeView> {
    Seq::new(ns.len(), |i: int| outline(ns[i]))
}

proof fn lemma_plain_name_is_own_file_name(b: Seq<char>)
    requires
        plain_name(b),
    ensures
        file_name(b) == Some(b),
{
    assert(b.len() == 1 ==> b[0] != '.') by {
        if b.len() == 1 && b[0] == '.' {
            assert(b =~= seq!['.']);
        }
    };
    assert(b.len() >= 2 ==> b[1] != '/');
    assert(crate::paths::body_start(b) == 0);
    assert(b.last() != '/');
    if b.last() == '.' && b.len() >= 2 {
        assert(b[b.len() - 2] != '/');
    }
    assert(crate::paths::strip_tail(b, 0) == b);
    lemma_last_seg_whole(b);
}

proof fn lemma_last_seg_whole(b: Seq<char>)
    requires
        forall|k: int| 0 <= k < b.len() ==> #[trigger] b[k] != '/',
    ensures
        crate::paths::last_seg(b) == b,
    decreases b.len(),
{
    if b.len() > 0 {
        let t = b.drop_last();
        assert forall|k: int| 0 <= k < t.len() implies #[trigger] t[k] != '/' by {
            assert(t[k] == b[k]);
        }
        lemma_last_seg_whole(t);
        assert(t.push(b.last()) =~= b);
    }
}

/// With different names, inserting the nodes one by one lists them all in
/// order.
proof fn lemma_mapping_of_distinct(ns: Seq<NodeView>)
    requires
        forall|i: int, j: int|
            0 <= i < j < ns.len() ==> #[trigger] ns[i].basename != #[trigger] ns[j].basename,
    ensures
        nodes_mapping(ns) == Seq::new(
            ns.len(),
            |i: int| (YamlView::Text(ns[i].basename), node_yaml(ns[i])),
        ),
    decreases ns.len(),
{
    if ns.len() > 0 {
        let t = ns.drop_last();
        assert forall|i: int, j: int|
            0 <= i < j < t.len() implies #[trigger] t[i].basename != #[trigger] t[j].basename by {
            assert(t[i] == ns[i] && t[j] == ns[j]);
        }
        lemma_mapping_of_distinct(t);
        let m = nodes_mapping(t);
        let k = YamlView::Text(ns.last().basename);
        lemma_key_index(m, k);
        if key_index(m, k) >= 0 {
            let i = key_index(m, k);
            assert(m[i].0 == YamlView::Text(t[i].basename));
            assert(ns[i].basename != ns[ns.len() - 1].basename);
        }
        assert(nodes_mapping(ns) =~= Seq::new(
            ns.len(),
            |i: int| (YamlView::Text(ns[i].basename), node_yaml(ns[i])),
        ));
    }
}

proof fn lemma_read_back_entry(n: NodeView)
    requires
        plain_name(n.basename),
        n.node_type == NodeType::DIRECTORY ==> plain_tree(n.children),
    ensures
        entry_node(YamlView::Text(n.basename), node_yaml(n)) == Ok::<
            NodeView,
            ConvertErrorView,
        >(outline(n)),
    decreases n, 1nat,
{
    lemma_plain_name_is_own_file_name(n.basename);
    if n.node_type == NodeType::DIRECTORY {
        lemma_mapping_of_distinct(n.children);
        lemma_read_back_entries(n.children);
        assert(outlines(n.children) =~= outline(n).children);
    } else {
        assert(outline(n).children =~= Seq::<NodeView>::empty());
    }
}

proof fn lemma_read_back_entries(ns: Seq<NodeView>)
    requires
        plain_tree(ns),
    ensures
        entries_nodes(
            Seq::new(ns.len(), |i: int| (YamlView::Text(ns[i].basename), node_yaml(ns[i]))),
        ) == Ok::<Seq<NodeView>, ConvertErrorView>(outlines(ns)),
    decreases ns, 0nat,
{
    let es = Seq::new(ns.len(), |i: int| (YamlView::Text(ns[i].basename), node_yaml(ns[i])));
    if ns.len() > 0 {
        let t = ns.drop_first();
        assert(plain_name(ns[0].basename));
        assert(ns[0].node_type == NodeType::DIRECTORY ==> plain_tree(ns[0].children));
        lemma_read_back_entry(ns[0]);
        assert forall|i: int| 0 <= i < t.len() implies plain_name(#[trigger] t[i].basename) by {
            assert(t[i] == ns[i + 1]);
        }
        assert forall|i: int, j: int|
            0 <= i < j < t.len() implies #[trigger] t[i].basename != #[trigger] t[j].basename by {
            assert(t[i] == ns[i + 1] && t[j] == ns[j + 1]);
        }
        assert forall|i: int|
            0 <= i < t.len() && #[trigger] t[i].node_type == NodeType::DIRECTORY implies plain_tree(
                t[i].children,
            ) by {
            assert(t[i] == ns[i + 1]);
        }
        lemma_read_back_entries(t);
        let et = Seq::new(t.len(), |i: int| (YamlView::Text(t[i].basename), node_yaml(t[i])));
        assert(es.drop_first() =~= et);
        assert(seq![outline(ns[0])] + outlines(t) =~= outlines(ns));
    } else {
        assert(outlines(ns) =~= Seq::<NodeView>::empty());
    }
}

/// What `generate` writes, `apply` reads back as the same tree: converting
/// nodes with plain, distinct names to YAML and back gives their outlines,
/// the names, kinds and nesting, without contents or operations.
pub proof fn law_written_tree_reads_back(ns: Seq<NodeView>)
    requires
        plain_tree(ns),
    ensures
        value_nodes(YamlView::Mapping(nodes_mapping(ns))) == Ok::<
            Seq<NodeView>,
            ConvertErrorView,
        >(outlines(ns)),
{
    lemma_mapping_of_distinct(ns);
    lemma_read_back_entries(ns);
}

/// An entry whose value is text is a file holding exactly that text,
/// character for character, newlines and inner white space included; it
/// has no operation and no children.
pub proof fn law_text_entry_is_file_with_that_text(key: YamlView, text: Seq<char>)
    requires
        text_of(key) is Some,
    ensures
        entry_node(key, YamlView::Text(text)) matches Ok(n) && n.contents == Some(text)
            && n.node_type == NodeType::FILE && n.op is None && n.children.len() == 0,
{
}

/// Reading entries keeps every text: where the entries read, there is one
/// node per entry, in order, under the entry's name, and each entry whose
/// value is text gives a file holding exactly that text.
pub proof fn law_entries_keep_their_texts(es: Seq<(YamlView, YamlView)>)
    ensures
        entries_nodes(es) matches Ok(ns) ==> {
            &&& ns.len() == es.len()
            &&& forall|i: int|
                0 <= i < es.len() ==> (#[trigger] es[i].1 matches YamlView::Text(t) ==> ns[i].contents
                    == Some(t) && ns[i].node_type == NodeType::FILE && ns[i].op is None)
        },
    decreases es.len(),
{
    if es.len() > 0 {
        law_entries_keep_their_texts(es.drop_first());
        if let Ok(ns) = entries_nodes(es) {
            let rest = es.drop_first();
            assert forall|i: int|
                0 <= i < es.len() implies (#[trigger] es[i].1 matches YamlView::Text(t) ==> ns[i].contents
                    == Some(t) && ns[i].node_type == NodeType::FILE && ns[i].op is None) by {
                let first = entry_node(es[0].0, es[0].1);
                let others = entries_nodes(rest);
                assert(first is Ok && others is Ok);
                assert(ns == seq![first->Ok_0] + others->Ok_0);
                if i > 0 {
                    assert(es[i] == rest[i - 1]);
                    assert(ns[i] == (others->Ok_0)[i - 1]);
                } else {
                    assert(ns[0] == first->Ok_0);
                }
            }
        }
    }
}

/// An entry whose key is not text is refused, whatever its value.
pub proof fn law_entry_key_must_be_text(key: YamlView, val: YamlView)
    requires
        text_of(key) is None,
    ensures
        entry_node(key, val) == Err::<NodeView, ConvertErrorView>(ConvertErrorView::KeyNotText),
{
}

/// The node of an entry is named by its key: its path is the key's text.
/// An empty value, or any value that is neither text, mapping nor tag,
/// gives an empty file.
pub proof fn law_plain_entry_is_empty_file(key: YamlView, val: YamlView, name: Seq<char>)
    requires
        text_of(key) == Some(name),
        !(val is Text || val is Mapping || val is Tagged),
    ensures
        entry_node(key, val) matches Ok(n) && n.path == name && n.contents is None
            && n.node_type == NodeType::FILE && n.op is None && n.children.len() == 0,
{
}

/// A mapping entry is a directory, named by its key, with one child per
/// entry of the mapping, in order, and no text or operation of its own; it
/// is refused exactly when one of its entries is.
pub proof fn law_mapping_entry_is_directory(
    key: YamlView,
    es: Seq<(YamlView, YamlView)>,
    name: Seq<char>,
)
    requires
        text_of(key) == Some(name),
    ensures
        entry_node(key, YamlView::Mapping(es)) is Ok <==> entries_nodes(es) is Ok,
        entry_node(key, YamlView::Mapping(es)) matches Ok(n) ==> n.path == name && n.node_type
            == NodeType::DIRECTORY && n.contents is None && n.op is None && n.children.len()
            == es.len() && Ok::<Seq<NodeView>, ConvertErrorView>(n.children) == entries_nodes(es),
{
    law_entries_keep_their_texts(es);
}

/// A tagged entry is a node named by its key that carries the operation of
/// the tag and the text under it (no text when the value under the tag is
/// not text), with no text or children of its own; a tag that makes no
/// operation refuses the entry with that error.
pub proof fn law_tagged_entry_carries_its_operation(
    key: YamlView,
    tag: Seq<char>,
    inner: YamlView,
    name: Seq<char>,
)
    requires
        text_of(key) == Some(name),
    ensures
        ({
            let args = match text_of(inner) {
                Some(t) => t,
                None => Seq::empty(),
            };
            match op_from_tokens(tag, args) {
                Ok(op) => entry_node(key, YamlView::Tagged(tag, Box::new(inner))) matches Ok(n)
                    && n.path == name && n.op == Some(op) && n.contents is None && n.node_type
                    == NodeType::FILE && n.children.len() == 0,
                Err(e) => entry_node(key, YamlView::Tagged(tag, Box::new(inner))) == Err::<
                    NodeView,
                    ConvertErrorView,
                >(ConvertErrorView::BadOperation(e)),
            }
        }),
{
}

proof fn lemma_last_seg_after_sep(x: Seq<char>, b: Seq<char>)
    requires
        x.len() > 0,
        x.last() == '/',
        forall|k: int| 0 <= k < b.len() ==> #[trigger] b[k] != '/',
    ensures
        crate::paths::last_seg(x + b) == b,
    decreases b.len(),
{
    if b.len() == 0 {
        assert(x + b =~= x);
    } else {
        let t = b.drop_last();
        assert forall|k: int| 0 <= k < t.len() implies #[trigger] t[k] != '/' by {
            assert(t[k] == b[k]);
        }
        lemma_last_seg_after_sep(x, t);
        assert((x + b).drop_last() =~= x + t);
        assert(t.push(b.last()) =~= b);
    }
}

/// A plain name joined onto any directory path is the final name of the
/// joined path: a node made at `join(dir, name)` is named `name`.
pub proof fn law_joined_name_is_file_name(dir: Seq<char>, name: Seq<char>)
    requires
        plain_name(name),
    ensures
        file_name(join(dir, name)) == Some(name),
{
    let p = join(dir, name);
    if dir.len() == 0 {
        assert(p =~= name);
        lemma_plain_name_is_own_file_name(name);
    } else {
        let x = if dir.last() != '/' {
            dir + seq!['/']
        } else {
            dir
        };
        assert(!crate::paths::has_root(name));
        assert(p =~= x + name);
        assert(x.last() == '/');
        lemma_last_seg_after_sep(x, name);
        let base = crate::paths::body_start(p);
        assert(base <= 1);
        assert(p.last() == name.last());
        assert(name.len() == 1 ==> name[0] != '.') by {
            if name.len() == 1 && name[0] == '.' {
                assert(name =~= seq!['.']);
            }
        };
        if name.len() >= 2 {
            assert(p[p.len() - 2] == name[name.len() - 2]);
        } else {
            assert(p.last() != '.');
        }
        assert(!crate::paths::ends_in_dot_piece(p, base));
        assert(crate::paths::strip_tail(p, base) == p);
    }
}

} // verus!
