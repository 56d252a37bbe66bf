//! Parse trees.
use vstd::prelude::*;

use vstd::string::StringExecFns;

use crate::text::{decimal, push_decimal};

verus! {

/// A parse tree as a mathematical value.
pub struct SNode {
    pub name: Seq<char>,
    pub children: Seq<SNode>,
    pub is_term: bool,
}

/// A node of a parse tree: a nonterminal with its children, or a terminal leaf.
#[derive(Debug)]
pub struct Node {
    pub name: String,
    pub children: Vec<Node>,
    pub is_term: bool,
}

/// The mathematical values of a list of nodes.
pub open spec fn nodes_view(cs: Seq<Node>) -> Seq<SNode>
    decreases cs, 0int,
{
    Seq::new(
        cs.len(),
        |i: int|
            if 0 <= i < cs.len() {
                node_view(cs[i])
            } else {
                SNode { name: Seq::empty(), children: Seq::empty(), is_term: false }
            },
    )
}

/// The mathematical value of a node.
pub open spec fn node_view(n: Node) -> SNode
    decreases n, 1int,
{
    SNode { name: n.name@, children: nodes_view(n.children@), is_term: n.is_term }
}

impl View for Node {
    type V = SNode;

    open spec fn view(&self) -> SNode {
        node_view(*self)
    }
}

impl Node {
    /// A nonterminal node with the given name and children.
    pub fn new(name: &str, children: Vec<Node>) -> (n: Node)
        ensures
            n@ == (SNode { name: name@, children: nodes_view(children@), is_term: false }),
    {
        Node { name: name.to_owned(), children, is_term: false }
    }
}

} // verus!

verus! {

/// The name and kind of each node of the tree `n`, in pre-order.
pub open spec fn preorder(n: SNode) -> Seq<(Seq<char>, bool)>
    decreases n, 1int,
{
    seq![(n.name, n.is_term)] + preorder_forest(n.children)
}

/// The names and kinds of the nodes of the trees `cs`, each in pre-order, one after the other.
pub open spec fn preorder_forest(cs: Seq<SNode>) -> Seq<(Seq<char>, bool)>
    decreases cs, 0int,
{
    if cs.len() == 0 {
        Seq::empty()
    } else {
        preorder_forest(cs.drop_last()) + preorder(cs.last())
    }
}

/// The parent-child edges of the tree `n` whose root is numbered `root`, its
/// nodes numbered in pre-order; each node's edges come before those of its
/// subtree, and the subtrees of its children one after the other.
pub open spec fn edges(n: SNode, root: nat) -> Seq<(nat, nat)>
    decreases n, 1int,
{
    edges_forest(n.children, root, root + 1)
}

/// The edges from `parent` to the trees `cs`, numbered in pre-order from `first`, and their own.
pub open spec fn edges_forest(cs: Seq<SNode>, parent: nat, first: nat) -> Seq<(nat, nat)>
    decreases cs, 0int,
{
    if cs.len() == 0 {
        Seq::empty()
    } else {
        let child = first + preorder_forest(cs.drop_last()).len();
        edges_forest(cs.drop_last(), parent, first) + seq![(parent, child)] + edges(cs.last(), child)
    }
}

/// The line describing node number `i`.
pub open spec fn node_line(i: nat, name: Seq<char>, is_term: bool) -> Seq<char> {
    "N"@ + decimal(i) + "[label=\""@ + name + "\",style=filled,fillcolor="@
        + (if is_term { "azure3"@ } else { "azure2"@ }) + "]\n"@
}

/// The lines describing the nodes `infos`, numbered from 0.
pub open spec fn node_lines(infos: Seq<(Seq<char>, bool)>) -> Seq<char>
    decreases infos.len(),
{
    if infos.len() == 0 {
        Seq::empty()
    } else {
        node_lines(infos.drop_last()) + node_line((infos.len() - 1) as nat, infos.last().0, infos.last().1)
    }
}

/// The line describing the edge from node `a` to node `b`.
pub open spec fn edge_line(a: nat, b: nat) -> Seq<char> {
    "N"@ + decimal(a) + " -> { N"@ + decimal(b) + " }\n"@
}

/// The lines describing the edges `es`.
pub open spec fn edge_lines(es: Seq<(nat, nat)>) -> Seq<char>
    decreases es.len(),
{
    if es.len() == 0 {
        Seq::empty()
    } else {
        edge_lines(es.drop_last()) + edge_line(es.last().0, es.last().1)
    }
}

/// The tree `n` as a graph in the DOT language: one line per node, numbered in
/// pre-order, terminals filled `azure3` and nonterminals `azure2`, then one
/// line per parent-child edge.
pub open spec fn dot_text(n: SNode) -> Seq<char> {
    "digraph parsed {\n"@ + node_lines(preorder(n)) + edge_lines(edges(n, 0)) + "}\n"@
}

/// The mathematical values of the collected node descriptions.
pub open spec fn infos_view(v: Seq<(String, bool)>) -> Seq<(Seq<char>, bool)> {
    v.map_values(|p: (String, bool)| (p.0@, p.1))
}

/// The mathematical values of the collected edges.
pub open spec fn edges_view(v: Seq<(usize, usize)>) -> Seq<(nat, nat)> {
    v.map_values(|e: (usize, usize)| (e.0 as nat, e.1 as nat))
}

/// Appends the descriptions of the nodes of `n` in pre-order to `nodes`, and
/// its edges to `ed`, numbering its root by the number of nodes already collected.
fn flatten_node_tree(n: &Node, ed: &mut Vec<(usize, usize)>, nodes: &mut Vec<(String, bool)>)
    ensures
        infos_view(final(nodes)@) == infos_view(old(nodes)@) + preorder(n@),
        edges_view(final(ed)@) == edges_view(old(ed)@) + edges(n@, old(nodes)@.len()),
    decreases n,
{
    let cur = nodes.len();
    nodes.push((n.name.clone(), n.is_term));
    let ghost base_nodes = infos_view(old(nodes)@) + seq![(n@.name, n@.is_term)];
    let ghost base_ed = edges_view(old(ed)@);
    assert(infos_view(nodes@) =~= base_nodes);
    let ghost kids = n@.children;
    assert(kids.take(0) =~= Seq::<SNode>::empty());
    let mut k: usize = 0;
    while k < n.children.len()
        invariant
            k <= n.children@.len(),
            kids == n@.children,
            kids.len() == n.children@.len(),
            cur == old(nodes)@.len(),
            infos_view(nodes@) == base_nodes + preorder_forest(kids.take(k as int)),
            edges_view(ed@) == base_ed + edges_forest(kids.take(k as int), cur as nat, cur as nat + 1),
            base_nodes.len() == cur + 1,
        decreases n.children@.len() - k,
    {
        let c = &n.children[k];
        assert(c@ == kids[k as int]);
        assert(kids.take(k as int + 1).drop_last() =~= kids.take(k as int));
        assert(kids.take(k as int + 1).last() == kids[k as int]);
        let ghost before_nodes = infos_view(nodes@);
        let ghost before_ed = edges_view(ed@);
        ed.push((cur, nodes.len()));
        assert(edges_view(ed@) =~= before_ed + seq![(cur as nat, before_nodes.len())]);
        flatten_node_tree(c, ed, nodes);
        assert(infos_view(nodes@) =~= base_nodes + preorder_forest(kids.take(k as int + 1)));
        assert(edges_view(ed@) =~= base_ed + edges_forest(kids.take(k as int + 1), cur as nat, cur as nat + 1));
        k = k + 1;
    }
    assert(kids.take(kids.len() as int) =~= kids);
    assert(infos_view(nodes@) =~= infos_view(old(nodes)@) + preorder(n@));
}


impl Node {
    /// Appends the tree as a graph in the DOT language to `out`.
    pub fn print(&self, out: &mut String)
        ensures
            final(out)@ == old(out)@ + dot_text(self@),
    {
        let mut ed: Vec<(usize, usize)> = Vec::new();
        let mut nodes: Vec<(String, bool)> = Vec::new();
        assert(infos_view(nodes@) =~= Seq::<(Seq<char>, bool)>::empty());
        assert(edges_view(ed@) =~= Seq::<(nat, nat)>::empty());
        flatten_node_tree(self, &mut ed, &mut nodes);
        assert(infos_view(nodes@) =~= preorder(self@));
        assert(edges_view(ed@) =~= edges(self@, 0));
        let ghost infos = infos_view(nodes@);
        let ghost es = edges_view(ed@);
        out.append("digraph parsed {\n");
        let ghost start = out@;
        let mut i: usize = 0;
        while i < nodes.len()
            invariant
                i <= nodes@.len(),
                infos == infos_view(nodes@),
                out@ == start + node_lines(infos.take(i as int)),
            decreases nodes@.len() - i,
        {
            assert(infos.take(i as int + 1).drop_last() =~= infos.take(i as int));
            out.append("N");
            push_decimal(out, i as u64);
            out.append("[label=\"");
            out.append(nodes[i].0.as_str());
            out.append("\",style=filled,fillcolor=");
            out.append(if nodes[i].1 { "azure3" } else { "azure2" });
            out.append("]\n");
            assert(out@ =~= start + node_lines(infos.take(i as int + 1)));
            i = i + 1;
        }
        assert(infos.take(infos.len() as int) =~= infos);
        let ghost mid = out@;
        let mut k: usize = 0;
        while k < ed.len()
            invariant
                k <= ed@.len(),
                es == edges_view(ed@),
                out@ == mid + edge_lines(es.take(k as int)),
            decreases ed@.len() - k,
        {
            assert(es.take(k as int + 1).drop_last() =~= es.take(k as int));
            let (src, dest) = ed[k];
            out.append("N");
            push_decimal(out, src as u64);
            out.append(" -> { N");
            push_decimal(out, dest as u64);
            out.append(" }\n");
            assert(out@ =~= mid + edge_lines(es.take(k as int + 1)));
            k = k + 1;
        }
        assert(es.take(es.len() as int) =~= es);
        out.append("}\n");
        assert(out@ =~= old(out)@ + dot_text(self@));
    }
}


/// The targets of a list of edges.
pub open spec fn edge_targets(es: Seq<(nat, nat)>) -> Seq<nat> {
    es.map_values(|e: (nat, nat)| e.1)
}

/// The numbers `from`, `from + 1`, ..., `from + count - 1`.
pub open spec fn numbers_from(from: nat, count: nat) -> Seq<nat> {
    Seq::new(count, |k: int| (from + k) as nat)
}

/// The trees `cs` hold as many nodes in pre-order as their edges from a parent
/// numbered below `first` say: the edges reach `first`, `first + 1`, ... in
/// order, each from a lower number, the parent or one at or after `first`.
pub proof fn lemma_edges_forest_shape(cs: Seq<SNode>, parent: nat, first: nat)
    requires
        parent < first,
    ensures
        edge_targets(edges_forest(cs, parent, first)) =~= numbers_from(first, preorder_forest(cs).len()),
        forall|k: int| 0 <= k < edges_forest(cs, parent, first).len() ==> {
            let e = #[trigger] edges_forest(cs, parent, first)[k];
            &&& e.0 < e.1
            &&& (e.0 == parent || first <= e.0)
        },
    decreases cs, 0int,
{
    if cs.len() > 0 {
        let init = cs.drop_last();
        let child = first + preorder_forest(init).len();
        lemma_edges_forest_shape(init, parent, first);
        lemma_edges_shape(cs.last(), child);
        let a = edges_forest(init, parent, first);
        let b = edges(cs.last(), child);
        let all = edges_forest(cs, parent, first);
        assert(all == a + seq![(parent, child)] + b);
        assert forall|k: int| 0 <= k < all.len() implies {
            let e = #[trigger] all[k];
            &&& e.0 < e.1
            &&& (e.0 == parent || first <= e.0)
        } by {
            if k < a.len() {
                assert(all[k] == a[k]);
            } else if k == a.len() {
            } else {
                assert(all[k] == b[k - a.len() - 1]);
            }
        }
        assert(edge_targets(all) =~= edge_targets(a) + seq![child] + edge_targets(b));
    }
}

/// A tree whose root is numbered `root` has its nodes numbered in pre-order
/// from `root`: its edges reach `root + 1`, `root + 2`, ... up to its last node,
/// in that order, each from a lower number at or after `root`.
pub proof fn lemma_edges_shape(n: SNode, root: nat)
    ensures
        preorder(n).len() >= 1,
        edge_targets(edges(n, root)) =~= numbers_from(root + 1, (preorder(n).len() - 1) as nat),
        forall|k: int| 0 <= k < edges(n, root).len() ==> {
            let e = #[trigger] edges(n, root)[k];
            &&& e.0 < e.1
            &&& root <= e.0
        },
    decreases n, 1int,
{
    lemma_edges_forest_shape(n.children, root, root + 1);
}

/// The pre-order number of the root of child `k` of the tree `n`, when the
/// root of `n` is numbered `root`: one more than `root` plus the sizes of the
/// children before it.
pub open spec fn child_number(n: SNode, root: nat, k: int) -> nat {
    root + 1 + preorder_forest(n.children.take(k)).len()
}

/// The links from `parent` to the roots of the trees `cs`, numbered in
/// pre-order from `first`, and the links inside each of them, are edges.
proof fn lemma_edges_forest_links(cs: Seq<SNode>, parent: nat, first: nat)
    ensures
        forall|k: int| 0 <= k < cs.len() ==> #[trigger] edges_forest(cs, parent, first).contains(
            (parent, first + preorder_forest(cs.take(k)).len()),
        ),
        forall|k: int, e: (nat, nat)| 0 <= k < cs.len() && #[trigger] edges(cs[k], first + preorder_forest(cs.take(k)).len()).contains(e)
            ==> edges_forest(cs, parent, first).contains(e),
    decreases cs.len(),
{
    if cs.len() > 0 {
        let init = cs.drop_last();
        lemma_edges_forest_links(init, parent, first);
        let child = first + preorder_forest(init).len();
        let a = edges_forest(init, parent, first);
        let b = edges(cs.last(), child);
        let all = edges_forest(cs, parent, first);
        assert(all == a + seq![(parent, child)] + b);
        assert forall|k: int| 0 <= k < cs.len() implies #[trigger] all.contains((parent, first + preorder_forest(cs.take(k)).len())) by {
            if k < cs.len() - 1 {
                assert(cs.take(k) =~= init.take(k));
                let x = (parent, first + preorder_forest(init.take(k)).len());
                assert(a.contains(x));
                let j = choose|j: int| 0 <= j < a.len() && a[j] == x;
                assert(all[j] == x);
            } else {
                assert(cs.take(k) =~= init);
                assert(all[a.len() as int] == (parent, child));
            }
        }
        assert forall|k: int, e: (nat, nat)| 0 <= k < cs.len() && #[trigger] edges(cs[k], first + preorder_forest(cs.take(k)).len()).contains(e)
            implies all.contains(e) by {
            if k < cs.len() - 1 {
                assert(cs.take(k) =~= init.take(k));
                assert(cs[k] == init[k]);
                assert(edges(init[k], first + preorder_forest(init.take(k)).len()).contains(e));
                assert(a.contains(e));
                let j = choose|j: int| 0 <= j < a.len() && a[j] == e;
                assert(all[j] == e);
            } else {
                assert(cs.take(k) =~= init);
                let j = choose|j: int| 0 <= j < b.len() && b[j] == e;
                assert(all[a.len() + 1 + j] == e);
            }
        }
    }
}

/// Every parent-child link of a tree is an edge of its graph: where the root
/// of `n` is numbered `root`, there is an edge from `root` to the number of
/// each child, and the edges of each child's subtree, numbered from that
/// child, are edges too. (With [`lemma_edges_shape`], which gives each node
/// but the root exactly one incoming edge, the edges are exactly the links.)
pub proof fn lemma_edges_link_children(n: SNode, root: nat)
    ensures
        forall|k: int| 0 <= k < n.children.len() ==> #[trigger] edges(n, root).contains((root, child_number(n, root, k))),
        forall|k: int, e: (nat, nat)| 0 <= k < n.children.len() && #[trigger] edges(n.children[k], child_number(n, root, k)).contains(e)
            ==> edges(n, root).contains(e),
{
    lemma_edges_forest_links(n.children, root, root + 1);
    assert forall|k: int| 0 <= k < n.children.len() implies #[trigger] edges(n, root).contains((root, child_number(n, root, k))) by {
        assert(edges_forest(n.children, root, root + 1).contains((root, (root + 1) + preorder_forest(n.children.take(k)).len())));
    }
    assert forall|k: int, e: (nat, nat)| 0 <= k < n.children.len() && #[trigger] edges(n.children[k], child_number(n, root, k)).contains(e)
        implies edges(n, root).contains(e) by {
        assert(edges(n.children[k], (root + 1) + preorder_forest(n.children.take(k)).len()).contains(e));
    }
}

/// Node `k` is described on line `k`, named by its full number: the lines for
/// the first `k + 1` nodes are those for the first `k`, then
/// `N<k>[label="<name>",style=filled,fillcolor=<azure3 or azure2>]`, the
/// first colour for a terminal.
pub proof fn lemma_node_lines_numbered(infos: Seq<(Seq<char>, bool)>, k: int)
    requires
        0 <= k < infos.len(),
    ensures
        node_lines(infos.take(k + 1)) == node_lines(infos.take(k)) + "N"@ + decimal(k as nat) + "[label=\""@
            + infos[k].0 + "\",style=filled,fillcolor="@ + (if infos[k].1 { "azure3"@ } else { "azure2"@ }) + "]\n"@,
        node_lines(infos.take(infos.len() as int)) == node_lines(infos),
{
    assert(infos.take(k + 1).drop_last() =~= infos.take(k));
    assert(infos.take(k + 1).last() == infos[k]);
    assert(infos.take(infos.len() as int) =~= infos);
}

/// Edge `k` is described on line `k` of the edge lines: the lines for the
/// first `k + 1` edges are those for the first `k`, then `N<a> -> { N<b> }`.
pub proof fn lemma_edge_lines_numbered(es: Seq<(nat, nat)>, k: int)
    requires
        0 <= k < es.len(),
    ensures
        edge_lines(es.take(k + 1)) == edge_lines(es.take(k)) + "N"@ + decimal(es[k].0) + " -> { N"@ + decimal(es[k].1)
            + " }\n"@,
        edge_lines(es.take(es.len() as int)) == edge_lines(es),
{
    assert(es.take(k + 1).drop_last() =~= es.take(k));
    assert(es.take(k + 1).last() == es[k]);
    assert(es.take(es.len() as int) =~= es);
}

} // verus!
