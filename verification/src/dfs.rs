//! Depth-first visit of a node tree, children in ascending name order.
use vstd::prelude::*;

use crate::node::{nodes_view, Node, NodeView};

verus! {

/// `a` comes before `b` in the order of their characters' code points, a
/// proper prefix first: the order of `str` and `String`.
pub open spec fn text_less(a: Seq<char>, b: Seq<char>) -> bool
    decreases a.len(),
{
    if b.len() == 0 {
        false
    } else if a.len() == 0 {
        true
    } else if a[0] != b[0] {
        a[0] < b[0]
    } else {
        text_less(a.drop_first(), b.drop_first())
    }
}

/// The nodes of `s` named `b`, in order.
pub open spec fn with_name(s: Seq<NodeView>, b: Seq<char>) -> Seq<NodeView>
    decreases s.len(),
{
    if s.len() == 0 {
        Seq::empty()
    } else {
        with_name(s.drop_last(), b) + if s.last().basename == b {
            seq![s.last()]
        } else {
            Seq::empty()
        }
    }
}

/// No name in `s` comes before a name further on.
pub open spec fn names_descending(s: Seq<NodeView>) -> bool {
    forall|i: int, j: int|
        0 <= i < j < s.len() ==> !text_less(#[trigger] s[i].basename, #[trigger] s[j].basename)
}

/// `t` holds the nodes of `s` with the names descending, nodes of one name
/// in their order in `s`: the stable sort of `s` by descending name.
pub open spec fn sorted_by_name_desc(t: Seq<NodeView>, s: Seq<NodeView>) -> bool {
    &&& names_descending(t)
    &&& forall|b: Seq<char>| #[trigger] with_name(t, b) == with_name(s, b)
}

proof fn lemma_text_less_irreflexive(a: Seq<char>)
    ensures
        !text_less(a, a),
    decreases a.len(),
{
    if a.len() > 0 {
        lemma_text_less_irreflexive(a.drop_first());
    }
}

proof fn lemma_text_less_total(a: Seq<char>, b: Seq<char>)
    ensures
        text_less(a, b) ==> !text_less(b, a),
        a != b ==> text_less(a, b) || text_less(b, a),
    decreases a.len(),
{
    if a.len() > 0 && b.len() > 0 {
        lemma_text_less_total(a.drop_first(), b.drop_first());
        if a[0] == b[0] && a != b {
            assert(a.drop_first() != b.drop_first()) by {
                if a.drop_first() == b.drop_first() {
                    assert(a =~= seq![a[0]] + a.drop_first());
                    assert(b =~= seq![b[0]] + b.drop_first());
                }
            }
        }
    }
    if a.len() == 0 && b.len() == 0 {
        assert(a =~= b);
    }
}

proof fn lemma_text_less_order(a: Seq<char>, b: Seq<char>, c: Seq<char>)
    ensures
        text_less(a, b) ==> !text_less(b, a),
        text_less(a, b) && text_less(b, c) ==> text_less(a, c),
        a != b ==> text_less(a, b) || text_less(b, a),
    decreases a.len(),
{
    lemma_text_less_total(a, b);
    if a.len() > 0 && b.len() > 0 && c.len() > 0 {
        lemma_text_less_order(a.drop_first(), b.drop_first(), c.drop_first());
    }
}

proof fn lemma_with_name_add(s: Seq<NodeView>, t: Seq<NodeView>, b: Seq<char>)
    ensures
        with_name(s + t, b) == with_name(s, b) + with_name(t, b),
    decreases t.len(),
{
    if t.len() == 0 {
        assert(s + t =~= s);
        assert(with_name(s, b) + with_name(t, b) =~= with_name(s, b));
    } else {
        lemma_with_name_add(s, t.drop_last(), b);
        assert((s + t).drop_last() =~= s + t.drop_last());
        assert((s + t).last() == t.last());
        assert(with_name(s + t, b) =~= with_name(s, b) + with_name(t, b));
    }
}

proof fn lemma_with_name_none(s: Seq<NodeView>, b: Seq<char>)
    requires
        forall|i: int| 0 <= i < s.len() ==> #[trigger] s[i].basename != b,
    ensures
        with_name(s, b) == Seq::<NodeView>::empty(),
    decreases s.len(),
{
    if s.len() > 0 {
        let t = s.drop_last();
        assert forall|i: int| 0 <= i < t.len() implies #[trigger] t[i].basename != b by {
            assert(t[i] == s[i]);
        }
        lemma_with_name_none(t, b);
        assert(with_name(s, b) =~= Seq::<NodeView>::empty());
    }
}

/// Putting `x` into the descending `o` at `p`, the first place whose name
/// comes before `x`'s, keeps `o` descending and adds `x` after the nodes of
/// its name.
proof fn lemma_insert_desc(o: Seq<NodeView>, x: NodeView, p: int)
    requires
        names_descending(o),
        0 <= p <= o.len(),
        forall|j: int| 0 <= j < p ==> !text_less(#[trigger] o[j].basename, x.basename),
        p < o.len() ==> text_less(o[p].basename, x.basename),
    ensures
        names_descending(o.insert(p, x)),
        forall|b: Seq<char>| #[trigger]
            with_name(o.insert(p, x), b) == with_name(o.push(x), b),
{
    assert forall|j: int| p <= j < o.len() implies text_less(
        #[trigger] o[j].basename,
        x.basename,
    ) by {
        if j > p {
            lemma_text_less_order(o[j].basename, o[p].basename, x.basename);
            if o[j].basename != o[p].basename {
                lemma_text_less_order(o[p].basename, o[j].basename, x.basename);
            }
        }
    }
    let u = o.insert(p, x);
    assert(u =~= o.take(p) + seq![x] + o.skip(p));
    assert forall|j: int, k: int| 0 <= j < k < u.len() implies !text_less(
        #[trigger] u[j].basename,
        #[trigger] u[k].basename,
    ) by {
        if k < p {
            assert(u[j] == o[j] && u[k] == o[k]);
        } else if k == p {
            assert(u[j] == o[j]);
        } else if j == p {
            assert(u[k] == o[k - 1]);
            lemma_text_less_order(o[k - 1].basename, x.basename, x.basename);
        } else if j < p {
            assert(u[j] == o[j] && u[k] == o[k - 1]);
        } else {
            assert(u[j] == o[j - 1] && u[k] == o[k - 1]);
        }
    }
    assert forall|b: Seq<char>| #[trigger] with_name(u, b) == with_name(o.push(x), b) by {
        lemma_with_name_add(o.take(p) + seq![x], o.skip(p), b);
        lemma_with_name_add(o.take(p), seq![x], b);
        lemma_with_name_add(o.take(p), o.skip(p), b);
        assert(o.take(p) + o.skip(p) =~= o);
        assert(o.push(x).drop_last() =~= o);
        assert(seq![x].drop_last() =~= Seq::<NodeView>::empty());
        assert(with_name(seq![x], b) =~= with_name(Seq::<NodeView>::empty(), b) + (
        if x.basename == b {
            seq![x]
        } else {
            Seq::empty()
        }));
        if x.basename == b {
            let rest = o.skip(p);
            assert forall|j: int| 0 <= j < rest.len() implies #[trigger] rest[j].basename
                != b by {
                assert(rest[j] == o[p + j]);
                lemma_text_less_irreflexive(b);
            }
            lemma_with_name_none(rest, b);
            assert(with_name(u, b) =~= with_name(o, b) + seq![x]);
        } else {
            assert(with_name(u, b) =~= with_name(o, b));
        }
    }
}

/// The first place in `t` whose name comes before `x`, or the end.
pub open spec fn ins_pos(t: Seq<NodeView>, x: Seq<char>) -> int
    decreases t.len(),
{
    if t.len() == 0 {
        0
    } else if text_less(t[0].basename, x) {
        0
    } else {
        1 + ins_pos(t.drop_first(), x)
    }
}

/// The nodes of `c` at the positions `o`, in that order.
pub open spec fn pick(c: Seq<NodeView>, o: Seq<int>) -> Seq<NodeView> {
    Seq::new(o.len(), |j: int| c[o[j]])
}

/// The positions of `c` in descending name order, positions of one name in
/// ascending order: each node of `c` in turn goes in after the nodes whose
/// names do not come before its own.
pub open spec fn desc_order(c: Seq<NodeView>) -> Seq<int>
    decreases c.len(),
{
    if c.len() == 0 {
        Seq::empty()
    } else {
        let o = desc_order(c.drop_last());
        o.insert(ins_pos(pick(c, o), c.last().basename), c.len() - 1)
    }
}

/// The children `c` in the order a visit pushes them: descending by name.
pub open spec fn sorted_children(c: Seq<NodeView>) -> Seq<NodeView> {
    pick(c, desc_order(c))
}

proof fn lemma_ins_pos(t: Seq<NodeView>, x: Seq<char>)
    ensures
        0 <= ins_pos(t, x) <= t.len(),
        forall|j: int| 0 <= j < ins_pos(t, x) ==> !text_less(#[trigger] t[j].basename, x),
        ins_pos(t, x) < t.len() ==> text_less(t[ins_pos(t, x)].basename, x),
    decreases t.len(),
{
    if t.len() > 0 && !text_less(t[0].basename, x) {
        let u = t.drop_first();
        lemma_ins_pos(u, x);
        assert forall|j: int| 0 <= j < ins_pos(t, x) implies !text_less(
            #[trigger] t[j].basename,
            x,
        ) by {
            if j > 0 {
                assert(t[j] == u[j - 1]);
            }
        }
    }
}

proof fn lemma_desc_order(c: Seq<NodeView>)
    ensures
        desc_order(c).len() == c.len(),
        forall|j: int|
            0 <= j < c.len() ==> 0 <= #[trigger] desc_order(c)[j] < c.len(),
        sorted_by_name_desc(sorted_children(c), c),
    decreases c.len(),
{
    let o = desc_order(c);
    if c.len() == 0 {
        assert(sorted_children(c) =~= Seq::<NodeView>::empty());
        assert forall|b: Seq<char>| #[trigger] with_name(sorted_children(c), b) == with_name(c, b) by {
            assert(c =~= Seq::<NodeView>::empty());
        }
    } else {
        let d = c.drop_last();
        let k = c.len() - 1;
        let o1 = desc_order(d);
        lemma_desc_order(d);
        let t1 = pick(c, o1);
        assert(t1 =~= sorted_children(d)) by {
            assert forall|j: int| 0 <= j < o1.len() implies t1[j] == sorted_children(d)[j] by {
                assert(0 <= o1[j] < d.len());
            }
        }
        let p = ins_pos(t1, c.last().basename);
        lemma_ins_pos(t1, c.last().basename);
        assert(o == o1.insert(p, k));
        assert forall|j: int| 0 <= j < c.len() implies 0 <= #[trigger] o[j] < c.len() by {
            if j < p {
                assert(o[j] == o1[j]);
            } else if j > p {
                assert(o[j] == o1[j - 1]);
            }
        }
        lemma_insert_desc(t1, c.last(), p);
        assert(sorted_children(c) =~= t1.insert(p, c.last()));
        assert forall|b: Seq<char>| #[trigger] with_name(sorted_children(c), b) == with_name(c, b) by {
            assert(t1.push(c.last()).drop_last() =~= t1);
            assert(with_name(t1.push(c.last()), b) == with_name(t1, b) + if c.last().basename
                == b {
                seq![c.last()]
            } else {
                Seq::empty()
            });
        }
    }
}

/// Whether `a` comes before `b`.
pub fn text_before(a: &str, b: &str) -> (r: bool)
    ensures
        r == text_less(a@, b@),
{
    let na = a.unicode_len();
    let nb = b.unicode_len();
    let mut k: usize = 0;
    assert(a@.skip(0) =~= a@ && b@.skip(0) =~= b@);
    while k < na && k < nb && a.get_char(k) == b.get_char(k)
        invariant
            na == a@.len(),
            nb == b@.len(),
            k <= na,
            k <= nb,
            text_less(a@, b@) == text_less(a@.skip(k as int), b@.skip(k as int)),
        decreases na - k,
    {
        proof {
            assert(a@.skip(k as int).drop_first() =~= a@.skip(k + 1));
            assert(b@.skip(k as int).drop_first() =~= b@.skip(k + 1));
        }
        k = k + 1;
    }
    proof {
        if k < na && k < nb {
            assert(a@.skip(k as int)[0] == a@[k as int]);
            assert(b@.skip(k as int)[0] == b@[k as int]);
        }
    }
    if k == nb {
        false
    } else if k == na {
        true
    } else {
        a.get_char(k) < b.get_char(k)
    }
}

/// The copies of `nodes` in descending name order, nodes of one name in
/// their given order.
pub fn sort_by_name_desc(nodes: &Vec<Node>) -> (r: Vec<Node>)
    ensures
        r@.len() == nodes@.len(),
        sorted_by_name_desc(nodes_view(r@), nodes_view(nodes@)),
{
    let ghost all = nodes_view(nodes@);
    let mut out: Vec<Node> = Vec::new();
    let n = nodes.len();
    for i in 0..n
        invariant
            n == nodes@.len(),
            all == nodes_view(nodes@),
            out@.len() == i,
            names_descending(nodes_view(out@)),
            forall|b: Seq<char>| #[trigger]
                with_name(nodes_view(out@), b) == with_name(all.take(i as int), b),
    {
        let x = nodes[i].clone();
        let ghost o = nodes_view(out@);
        let mut p: usize = 0;
        while p < out.len() && !text_before(out[p].basename.as_str(), x.basename.as_str())
            invariant
                p <= out@.len(),
                o == nodes_view(out@),
                forall|j: int| 0 <= j < p ==> !text_less(#[trigger] o[j].basename, x@.basename),
            decreases out@.len() - p,
        {
            p = p + 1;
        }
        proof {
            lemma_insert_desc(o, x@, p as int);
        }
        out.insert(p, x);
        proof {
            let t = all.take(i + 1);
            assert(t.drop_last() =~= all.take(i as int));
            assert(t.last() == x@);
            assert(nodes_view(out@) =~= o.insert(p as int, x@));
            assert forall|b: Seq<char>| #[trigger] with_name(nodes_view(out@), b) == with_name(t, b) by {
                assert(with_name(o.push(x@), b) =~= with_name(o, b) + if x@.basename == b {
                    seq![x@]
                } else {
                    Seq::empty()
                }) by {
                    assert(o.push(x@).drop_last() =~= o);
                }
            }
        }
    }
    assert(all.take(n as int) =~= all);
    out
}

/// The nodes of the tree at `n` in the order a visit gives them: `n`, then
/// the trees of its children as they come off the stack they are pushed on
/// in descending name order, so ascending by name.
pub open spec fn preorder(n: NodeView) -> Seq<NodeView>
    decreases n, 1nat, 0nat,
{
    seq![n] + child_trees(n, desc_order(n.children))
}

/// The trees of the children of `n` at the positions `o`, taken as from a
/// stack whose top is last.
pub open spec fn child_trees(n: NodeView, o: Seq<int>) -> Seq<NodeView>
    decreases n, 0nat, o.len(),
{
    if o.len() == 0 {
        Seq::empty()
    } else {
        let i = o.last();
        let top = if 0 <= i < n.children.len() {
            preorder(n.children[i])
        } else {
            Seq::empty()
        };
        top + child_trees(n, o.drop_last())
    }
}

/// The nodes a visit gives from the stack `s`, whose top is last: the tree
/// of the top node, then that of the stack beneath it.
pub open spec fn dfs_order(s: Seq<NodeView>) -> Seq<NodeView>
    decreases s.len(),
{
    if s.len() == 0 {
        Seq::empty()
    } else {
        preorder(s.last()) + dfs_order(s.drop_last())
    }
}

proof fn lemma_dfs_order_add(a: Seq<NodeView>, b: Seq<NodeView>)
    ensures
        dfs_order(a + b) == dfs_order(b) + dfs_order(a),
    decreases b.len(),
{
    if b.len() == 0 {
        assert(a + b =~= a);
        assert(dfs_order(b) + dfs_order(a) =~= dfs_order(a));
    } else {
        lemma_dfs_order_add(a, b.drop_last());
        assert((a + b).drop_last() =~= a + b.drop_last());
        assert((a + b).last() == b.last());
        assert(dfs_order(a + b) =~= dfs_order(b) + dfs_order(a));
    }
}

proof fn lemma_child_trees(n: NodeView, o: Seq<int>)
    requires
        forall|j: int| 0 <= j < o.len() ==> 0 <= #[trigger] o[j] < n.children.len(),
    ensures
        child_trees(n, o) == dfs_order(pick(n.children, o)),
    decreases o.len(),
{
    if o.len() > 0 {
        let u = o.drop_last();
        assert(0 <= o[o.len() - 1] < n.children.len());
        lemma_child_trees(n, u);
        assert(pick(n.children, o).drop_last() =~= pick(n.children, u));
    } else {
        assert(pick(n.children, o) =~= Seq::<NodeView>::empty());
    }
}

/// The visit of the tree at `n`: `n`, then what a visit gives from the
/// stack of its children as pushed.
proof fn lemma_preorder_unfold(n: NodeView)
    ensures
        preorder(n) == seq![n] + dfs_order(sorted_children(n.children)),
{
    lemma_desc_order(n.children);
    lemma_child_trees(n, desc_order(n.children));
}

/// Visits a tree depth first, each node before its children, the children
/// in ascending name order.
pub struct DfsIterator {
    stack: Vec<Node>,
}

impl View for DfsIterator {
    /// The nodes still to visit from, the next one last.
    type V = Seq<NodeView>;

    closed spec fn view(&self) -> Seq<NodeView> {
        nodes_view(self.stack@)
    }
}

impl DfsIterator {
    /// A visit that starts at `root`: it gives the nodes of the tree at
    /// `root` in [`preorder`].
    pub fn new(root: Node) -> (r: Self)
        ensures
            r@ == seq![root@],
            dfs_order(r@) == preorder(root@),
    {
        let mut stack = Vec::new();
        stack.push(root);
        let r = DfsIterator { stack };
        assert(r@ =~= seq![root@]);
        let ghost e = Seq::<NodeView>::empty();
        assert(r@.drop_last() =~= e);
        assert(dfs_order(e) == e);
        assert(r@.last() == root@);
        assert(dfs_order(r@) == preorder(root@) + dfs_order(e));
        assert(preorder(root@) + e =~= preorder(root@));
        r
    }

    /// The next node; its children, by descending name, go on top of the
    /// nodes still to visit, so the smallest name comes next. The node is
    /// the first of what is left of the visit, [`dfs_order`] of the stack,
    /// and the rest is left; with nothing left, there is no next node.
    pub fn next(&mut self) -> (r: Option<Node>)
        ensures
            r is None <==> dfs_order(old(self)@).len() == 0,
            r matches Some(n) ==> dfs_order(old(self)@) == seq![n@] + dfs_order(final(self)@),
            old(self)@.len() == 0 ==> r is None && final(self)@ == old(self)@,
            old(self)@.len() > 0 ==> {
                let rest = old(self)@.len() - 1;
                &&& r matches Some(n) && n@ == old(self)@.last()
                &&& final(self)@.len() == rest + old(self)@.last().children.len()
                &&& final(self)@.take(rest) == old(self)@.drop_last()
                &&& sorted_by_name_desc(final(self)@.skip(rest), old(self)@.last().children)
            },
    {
        let ghost s0 = self@;
        match self.stack.pop() {
            None => {
                assert(s0.len() == 0);
                None
            },
            Some(node) => {
                proof {
                    assert(nodes_view(self.stack@) =~= s0.drop_last());
                    assert(node@ == s0.last());
                    assert(node.children@.len() == node@.children.len());
                    assert(nodes_view(node.children@) =~= node@.children);
                }
                let children = sort_by_name_desc(&node.children);
                let ghost sorted = nodes_view(children@);
                let ghost base = nodes_view(self.stack@);
                let mut children = children;
                self.stack.append(&mut children);
                proof {
                    let f = nodes_view(self.stack@);
                    assert(f =~= base + sorted);
                    assert(f.take(base.len() as int) =~= base);
                    assert(f.skip(base.len() as int) =~= sorted);
                    let l = s0.last();
                    lemma_desc_order(l.children);
                    law_name_sort_is_unique(sorted, sorted_children(l.children), l.children);
                    lemma_preorder_unfold(l);
                    lemma_dfs_order_add(base, sorted);
                    assert(dfs_order(s0) =~= seq![l] + dfs_order(f));
                }
                Some(node)
            },
        }
    }
}

proof fn lemma_with_name_member(t: Seq<NodeView>, b: Seq<char>)
    requires
        with_name(t, b).len() > 0,
    ensures
        exists|i: int| 0 <= i < t.len() && #[trigger] t[i].basename == b,
    decreases t.len(),
{
    if t.len() > 0 {
        if t.last().basename != b {
            lemma_with_name_member(t.drop_last(), b);
            let i = choose|i: int| 0 <= i < t.len() - 1 && #[trigger] t.drop_last()[i].basename == b;
            assert(t[i] == t.drop_last()[i]);
        } else {
            assert(t[t.len() - 1].basename == b);
        }
    }
}

proof fn lemma_sorted_unique(t1: Seq<NodeView>, t2: Seq<NodeView>)
    requires
        names_descending(t1),
        names_descending(t2),
        forall|b: Seq<char>| #[trigger] with_name(t1, b) == with_name(t2, b),
    ensures
        t1 == t2,
    decreases t1.len(),
{
    if t2.len() > 0 && t1.len() == 0 {
        assert(with_name(t2, t2.last().basename).len() > 0);
        assert(with_name(t1, t2.last().basename).len() == 0);
    } else if t1.len() > 0 && t2.len() == 0 {
        assert(with_name(t1, t1.last().basename).len() > 0);
        assert(with_name(t2, t1.last().basename).len() == 0);
    } else if t1.len() > 0 {
        let x = t1.last().basename;
        let y = t2.last().basename;
        assert(with_name(t1, x).len() > 0);
        assert(with_name(t2, y).len() > 0);
        lemma_with_name_member(t2, x);
        lemma_with_name_member(t1, y);
        let i = choose|i: int| 0 <= i < t2.len() && #[trigger] t2[i].basename == x;
        let j = choose|j: int| 0 <= j < t1.len() && #[trigger] t1[j].basename == y;
        if i < t2.len() - 1 {
            assert(!text_less(t2[i].basename, t2[t2.len() - 1].basename));
        }
        if j < t1.len() - 1 {
            assert(!text_less(t1[j].basename, t1[t1.len() - 1].basename));
        }
        lemma_text_less_total(x, y);
        assert(x == y);
        assert(with_name(t1, x).last() == t1.last());
        assert(with_name(t2, x).last() == t2.last());
        let u1 = t1.drop_last();
        let u2 = t2.drop_last();
        assert forall|b: Seq<char>| #[trigger] with_name(u1, b) == with_name(u2, b) by {
            if b == x {
                assert(with_name(u1, b) =~= with_name(t1, b).drop_last());
                assert(with_name(u2, b) =~= with_name(t2, b).drop_last());
            } else {
                assert(with_name(u1, b) =~= with_name(t1, b));
                assert(with_name(u2, b) =~= with_name(t2, b));
            }
        }
        assert forall|a: int, c: int| 0 <= a < c < u1.len() implies !text_less(
            #[trigger] u1[a].basename,
            #[trigger] u1[c].basename,
        ) by {
            assert(u1[a] == t1[a] && u1[c] == t1[c]);
        }
        assert forall|a: int, c: int| 0 <= a < c < u2.len() implies !text_less(
            #[trigger] u2[a].basename,
            #[trigger] u2[c].basename,
        ) by {
            assert(u2[a] == t2[a] && u2[c] == t2[c]);
        }
        lemma_sorted_unique(u1, u2);
        assert(t1 =~= u1.push(t1.last()));
        assert(t2 =~= u2.push(t2.last()));
    } else {
        assert(t1 =~= t2);
    }
}

/// The children's order that a visit takes is fixed: the sequences that
/// sort the same nodes by descending name, nodes of one name in their given
/// order, are all the same sequence.
pub proof fn law_name_sort_is_unique(t1: Seq<NodeView>, t2: Seq<NodeView>, s: Seq<NodeView>)
    requires
        sorted_by_name_desc(t1, s),
        sorted_by_name_desc(t2, s),
    ensures
        t1 == t2,
{
    assert forall|b: Seq<char>| #[trigger] with_name(t1, b) == with_name(t2, b) by {
        assert(with_name(t1, b) == with_name(s, b));
        assert(with_name(t2, b) == with_name(s, b));
    }
    lemma_sorted_unique(t1, t2);
}

proof fn lemma_with_name_has(s: Seq<NodeView>, b: Seq<char>, k: int)
    requires
        0 <= k < s.len(),
        s[k].basename == b,
    ensures
        with_name(s, b).contains(s[k]),
    decreases s.len(),
{
    if k < s.len() - 1 {
        lemma_with_name_has(s.drop_last(), b, k);
        let w = with_name(s.drop_last(), b);
        let i = choose|i: int| 0 <= i < w.len() && w[i] == s.drop_last()[k];
        assert(with_name(s, b)[i] == w[i]);
    } else {
        assert(with_name(s, b).last() == s[k]);
    }
}

proof fn lemma_with_name_from(s: Seq<NodeView>, b: Seq<char>, x: NodeView)
    requires
        with_name(s, b).contains(x),
    ensures
        exists|k: int| 0 <= k < s.len() && s[k] == x,
    decreases s.len(),
{
    if s.len() > 0 {
        let w = with_name(s.drop_last(), b);
        let i = choose|i: int| 0 <= i < with_name(s, b).len() && with_name(s, b)[i] == x;
        if i < w.len() {
            assert(w[i] == x);
            lemma_with_name_from(s.drop_last(), b, x);
            let k = choose|k: int| 0 <= k < s.drop_last().len() && s.drop_last()[k] == x;
            assert(s[k] == x);
        } else {
            assert(s[s.len() - 1] == x);
        }
    }
}

proof fn lemma_with_name_twice(s: Seq<NodeView>, b: Seq<char>, i: int, j: int)
    requires
        0 <= i < j < s.len(),
        s[i].basename == b,
        s[j].basename == b,
    ensures
        with_name(s, b).len() >= 2,
    decreases s.len(),
{
    let d = s.drop_last();
    if j < s.len() - 1 {
        lemma_with_name_twice(d, b, i, j);
    } else {
        lemma_with_name_has(d, b, i);
    }
}

proof fn lemma_with_name_once(s: Seq<NodeView>, b: Seq<char>)
    requires
        forall|i: int, j: int| 0 <= i < j < s.len() ==> s[i].basename != s[j].basename,
    ensures
        with_name(s, b).len() <= 1,
    decreases s.len(),
{
    if s.len() > 0 {
        let d = s.drop_last();
        assert forall|i: int, j: int| 0 <= i < j < d.len() implies d[i].basename
            != d[j].basename by {
            assert(d[i] == s[i] && d[j] == s[j]);
        }
        lemma_with_name_once(d, b);
        if s.last().basename == b && with_name(d, b).len() > 0 {
            lemma_with_name_member(d, b);
            let i = choose|i: int| 0 <= i < d.len() && #[trigger] d[i].basename == b;
            assert(s[i] == d[i]);
        }
    }
}

/// A visit takes the children of a node each once and, where siblings have
/// distinct names, in strictly ascending name order: they are pushed in
/// strictly descending name order, so the smallest name is on top.
pub proof fn law_children_visited_ascending(c: Seq<NodeView>)
    requires
        forall|i: int, j: int| 0 <= i < j < c.len() ==> c[i].basename != c[j].basename,
    ensures
        sorted_children(c).len() == c.len(),
        sorted_by_name_desc(sorted_children(c), c),
        forall|i: int|
            #![trigger c[i]]
            0 <= i < c.len() ==> exists|j: int|
                #![trigger sorted_children(c)[j]]
                0 <= j < c.len() && sorted_children(c)[j] == c[i],
        forall|i: int, j: int|
            0 <= i < j < c.len() ==> text_less(
                #[trigger] sorted_children(c)[j].basename,
                #[trigger] sorted_children(c)[i].basename,
            ),
{
    let t = sorted_children(c);
    lemma_desc_order(c);
    assert forall|i: int| #![trigger c[i]] 0 <= i < c.len() implies exists|j: int|
        #![trigger t[j]]
        0 <= j < c.len() && t[j] == c[i] by {
        lemma_with_name_has(c, c[i].basename, i);
        assert(with_name(t, c[i].basename) == with_name(c, c[i].basename));
        lemma_with_name_from(t, c[i].basename, c[i]);
    }
    assert forall|i: int, j: int| 0 <= i < j < c.len() implies text_less(
        #[trigger] t[j].basename,
        #[trigger] t[i].basename,
    ) by {
        let b = t[i].basename;
        if t[j].basename == b {
            lemma_with_name_twice(t, b, i, j);
            lemma_with_name_once(c, b);
            assert(with_name(t, b) == with_name(c, b));
        }
        lemma_text_less_total(t[i].basename, t[j].basename);
    }
}

} // verus!
