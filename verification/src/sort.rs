//! Sorting a graph: nodes by id, edges by source, target and kind, each stably.

use vstd::prelude::*;

use crate::graph::{edge_views, node_views, Edge, EdgeKind, EdgeView, Graph, GraphView, Node, NodeView};
use crate::text::chars_of;

verus! {

/// `a` comes before `b` in the order of `str::cmp`: at the first position where they
/// differ, the smaller character decides; a proper prefix comes first.
pub open spec fn text_before(a: Seq<char>, b: Seq<char>) -> bool
    decreases a.len(),
{
    if b.len() == 0 {
        false
    } else if a.len() == 0 {
        true
    } else if a[0] != b[0] {
        a[0] < b[0]
    } else {
        text_before(a.drop_first(), b.drop_first())
    }
}

/// The position of an edge kind in the order its declaration gives.
pub open spec fn kind_rank(k: EdgeKind) -> int {
    match k {
        EdgeKind::Contains => 0,
        EdgeKind::References => 1,
        EdgeKind::Sequence => 2,
    }
}

/// Nodes are ordered by id.
pub open spec fn node_order() -> spec_fn(NodeView, NodeView) -> bool {
    |a: NodeView, b: NodeView| text_before(a.id, b.id)
}

/// Edges are ordered by source, then target, then kind.
pub open spec fn edge_order() -> spec_fn(EdgeView, EdgeView) -> bool {
    |a: EdgeView, b: EdgeView|
        text_before(a.source, b.source) || (a.source == b.source && (text_before(a.target, b.target)
            || (a.target == b.target && kind_rank(a.kind) < kind_rank(b.kind))))
}

/// The first position from `i` on whose element `x` comes before, or the end.
pub open spec fn first_after<T>(s: Seq<T>, x: T, before: spec_fn(T, T) -> bool, i: int) -> int
    decreases s.len() - i,
{
    if i < 0 || i >= s.len() {
        s.len() as int
    } else if before(x, s[i]) {
        i
    } else {
        first_after(s, x, before, i + 1)
    }
}

/// A stable sort: each element, in order, goes after every element placed so far that it
/// does not come before.
pub open spec fn stable_sort<T>(s: Seq<T>, before: spec_fn(T, T) -> bool) -> Seq<T>
    decreases s.len(),
{
    if s.len() == 0 {
        s
    } else {
        let r = stable_sort(s.drop_last(), before);
        r.insert(first_after(r, s.last(), before, 0), s.last())
    }
}

/// No element comes before an element on its left.
pub open spec fn sorted_by<T>(s: Seq<T>, before: spec_fn(T, T) -> bool) -> bool {
    forall|i: int, j: int| 0 <= i < j < s.len() ==> !before(#[trigger] s[j], #[trigger] s[i])
}

/// Irreflexive and transitive.
pub open spec fn strict_order<T>(before: spec_fn(T, T) -> bool) -> bool {
    &&& forall|a: T| !#[trigger] before(a, a)
    &&& forall|a: T, b: T, c: T| #[trigger] before(a, b) && #[trigger] before(b, c) ==> before(a, c)
}

pub open spec fn sorted_graph(g: GraphView) -> GraphView {
    GraphView { nodes: stable_sort(g.nodes, node_order()), edges: stable_sort(g.edges, edge_order()) }
}

proof fn lemma_text_before_irreflexive(a: Seq<char>)
    ensures
        !text_before(a, a),
    decreases a.len(),
{
    if a.len() > 0 {
        lemma_text_before_irreflexive(a.drop_first());
    }
}

proof fn lemma_text_before_transitive(a: Seq<char>, b: Seq<char>, c: Seq<char>)
    requires
        text_before(a, b),
        text_before(b, c),
    ensures
        text_before(a, c),
    decreases a.len(),
{
    if a.len() > 0 && b.len() > 0 && c.len() > 0 && a[0] == b[0] && b[0] == c[0] {
        lemma_text_before_transitive(a.drop_first(), b.drop_first(), c.drop_first());
    }
}

proof fn lemma_node_order_strict()
    ensures
        strict_order(node_order()),
{
    let o = node_order();
    assert forall|a: NodeView| !#[trigger] o(a, a) by {
        lemma_text_before_irreflexive(a.id);
    }
    assert forall|a: NodeView, b: NodeView, c: NodeView| #[trigger] o(a, b) && #[trigger] o(b, c) implies o(a, c) by {
        lemma_text_before_transitive(a.id, b.id, c.id);
    }
}

proof fn lemma_edge_order_strict()
    ensures
        strict_order(edge_order()),
{
    let o = edge_order();
    assert forall|a: EdgeView| !#[trigger] o(a, a) by {
        lemma_text_before_irreflexive(a.source);
        lemma_text_before_irreflexive(a.target);
    }
    assert forall|a: EdgeView, b: EdgeView, c: EdgeView| #[trigger] o(a, b) && #[trigger] o(b, c) implies o(a, c) by {
        if text_before(a.source, b.source) && text_before(b.source, c.source) {
            lemma_text_before_transitive(a.source, b.source, c.source);
        }
        if a.source == b.source && b.source == c.source && text_before(a.target, b.target) && text_before(b.target, c.target) {
            lemma_text_before_transitive(a.target, b.target, c.target);
        }
    }
}

proof fn lemma_first_after<T>(s: Seq<T>, x: T, before: spec_fn(T, T) -> bool, i: int)
    requires
        0 <= i <= s.len(),
    ensures
        i <= first_after(s, x, before, i) <= s.len(),
        forall|k: int| i <= k < first_after(s, x, before, i) ==> !before(x, #[trigger] s[k]),
        first_after(s, x, before, i) < s.len() ==> before(x, s[first_after(s, x, before, i)]),
    decreases s.len() - i,
{
    if i < s.len() && !before(x, s[i]) {
        lemma_first_after(s, x, before, i + 1);
    }
}

proof fn lemma_stable_sort_len<T>(s: Seq<T>, before: spec_fn(T, T) -> bool)
    ensures
        stable_sort(s, before).len() == s.len(),
    decreases s.len(),
{
    if s.len() > 0 {
        let r = stable_sort(s.drop_last(), before);
        lemma_stable_sort_len(s.drop_last(), before);
        lemma_first_after(r, s.last(), before, 0);
    }
}

/// A stable sort by a strict order leaves no element before an element on its left.
pub proof fn lemma_stable_sort_sorted<T>(s: Seq<T>, before: spec_fn(T, T) -> bool)
    requires
        strict_order(before),
    ensures
        sorted_by(stable_sort(s, before), before),
    decreases s.len(),
{
    if s.len() > 0 {
        let r = stable_sort(s.drop_last(), before);
        let x = s.last();
        lemma_stable_sort_sorted(s.drop_last(), before);
        lemma_first_after(r, x, before, 0);
        let p = first_after(r, x, before, 0);
        let q = r.insert(p, x);
        assert(q == stable_sort(s, before));
        assert forall|i: int, j: int| 0 <= i < j < q.len() implies !before(#[trigger] q[j], #[trigger] q[i]) by {
            if j < p {
                assert(q[i] == r[i] && q[j] == r[j]);
            } else if j == p {
                assert(q[i] == r[i] && q[j] == x);
                assert(!before(x, r[i]));
            } else if i < p {
                assert(q[i] == r[i] && q[j] == r[j - 1]);
            } else if i == p {
                assert(q[i] == x && q[j] == r[j - 1]);
                assert(before(x, r[p]));
                if before(r[j - 1], x) {
                    assert(before(r[j - 1], r[p]));
                    if j - 1 > p {
                        assert(!before(r[j - 1], r[p]));
                    }
                }
            } else {
                assert(q[i] == r[i - 1] && q[j] == r[j - 1]);
            }
        }
    }
}

/// A stable sort keeps every element, as many times as it occurs.
pub proof fn lemma_stable_sort_permutes<T>(s: Seq<T>, before: spec_fn(T, T) -> bool)
    ensures
        stable_sort(s, before).to_multiset() == s.to_multiset(),
    decreases s.len(),
{
    if s.len() > 0 {
        let r = stable_sort(s.drop_last(), before);
        lemma_stable_sort_permutes(s.drop_last(), before);
        lemma_stable_sort_len(s.drop_last(), before);
        lemma_first_after(r, s.last(), before, 0);
        vstd::seq_lib::to_multiset_insert(r, first_after(r, s.last(), before, 0), s.last());
        vstd::seq_lib::to_multiset_build(s.drop_last(), s.last());
        assert(s.drop_last().push(s.last()) =~= s);
    }
}

/// Elements that the order cannot tell apart keep their relative order: the elements of a
/// class whose members all compare alike come out in the order they came in.
pub proof fn lemma_stable_sort_keeps_class<T>(s: Seq<T>, before: spec_fn(T, T) -> bool, cls: spec_fn(T) -> bool)
    requires
        strict_order(before),
        forall|a: T, b: T, z: T|
            #![trigger cls(a), cls(b), before(a, z)]
            #![trigger cls(a), cls(b), before(z, a)]
            cls(a) && cls(b) ==> (before(a, z) == before(b, z)) && (before(z, a) == before(z, b)),
    ensures
        stable_sort(s, before).filter(cls) == s.filter(cls),
    decreases s.len(),
{
    reveal(Seq::filter);
    if s.len() > 0 {
        let d = s.drop_last();
        let x = s.last();
        let r = stable_sort(d, before);
        lemma_stable_sort_keeps_class(d, before, cls);
        lemma_stable_sort_sorted(d, before);
        lemma_stable_sort_len(d, before);
        lemma_first_after(r, x, before, 0);
        let p = first_after(r, x, before, 0);
        let a = r.take(p);
        let b = r.skip(p);
        assert(r =~= a + b);
        assert(r.insert(p, x) =~= a + seq![x] + b);
        Seq::filter_distributes_over_add(a, b, cls);
        Seq::filter_distributes_over_add(a + seq![x], b, cls);
        Seq::filter_distributes_over_add(a, seq![x], cls);
        assert(seq![x].drop_last() =~= Seq::<T>::empty());
        assert(Seq::<T>::empty().filter(cls) =~= Seq::<T>::empty());
        if cls(x) {
            assert(seq![x].filter(cls) =~= seq![x]);
            assert forall|i: int| 0 <= i < b.len() implies !cls(#[trigger] b[i]) by {
                let k = p + i;
                assert(b[i] == r[k]);
                if cls(r[k]) {
                    assert(before(x, r[p]));
                    assert(before(r[k], r[p]) == before(x, r[p]));
                    if k > p {
                        assert(!before(r[k], r[p]));
                    }
                }
            }
            b.lemma_all_neg_filter_empty(cls);
            assert(b.filter(cls) =~= Seq::<T>::empty());
            assert(stable_sort(s, before).filter(cls) =~= a.filter(cls) + seq![x]);
            assert(r.filter(cls) =~= a.filter(cls));
        } else {
            assert(seq![x].filter(cls) =~= Seq::<T>::empty());
            assert(stable_sort(s, before).filter(cls) =~= r.filter(cls));
        }
    }
}

/// Sorting a graph keeps the order of nodes with the same id, and of edges with the same
/// source, target and kind.
pub proof fn lemma_sorted_graph_stable(g: GraphView, id: Seq<char>, src: Seq<char>, tgt: Seq<char>, kind: EdgeKind)
    ensures
        sorted_graph(g).nodes.filter(|n: NodeView| n.id == id) == g.nodes.filter(|n: NodeView| n.id == id),
        sorted_graph(g).edges.filter(|e: EdgeView| e.source == src && e.target == tgt && e.kind == kind)
            == g.edges.filter(|e: EdgeView| e.source == src && e.target == tgt && e.kind == kind),
{
    lemma_node_order_strict();
    lemma_edge_order_strict();
    lemma_stable_sort_keeps_class(g.nodes, node_order(), |n: NodeView| n.id == id);
    lemma_stable_sort_keeps_class(g.edges, edge_order(), |e: EdgeView| e.source == src && e.target == tgt && e.kind == kind);
}

/// Sorting a graph leaves its nodes ordered by id and its edges by source, target and
/// kind, and keeps every node and edge, as many times as it occurs.
pub proof fn lemma_sorted_graph(g: GraphView)
    ensures
        sorted_by(sorted_graph(g).nodes, node_order()),
        sorted_by(sorted_graph(g).edges, edge_order()),
        sorted_graph(g).nodes.to_multiset() == g.nodes.to_multiset(),
        sorted_graph(g).edges.to_multiset() == g.edges.to_multiset(),
{
    lemma_node_order_strict();
    lemma_edge_order_strict();
    lemma_stable_sort_sorted(g.nodes, node_order());
    lemma_stable_sort_sorted(g.edges, edge_order());
    lemma_stable_sort_permutes(g.nodes, node_order());
    lemma_stable_sort_permutes(g.edges, edge_order());
}

fn text_before_exec(a: &Vec<char>, b: &Vec<char>) -> (r: bool)
    ensures
        r == text_before(a@, b@),
{
    let mut i: usize = 0;
    assert(a@.skip(0) =~= a@ && b@.skip(0) =~= b@);
    while i < a.len() && i < b.len() && a[i] == b[i]
        invariant
            i <= a@.len(),
            i <= b@.len(),
            text_before(a@, b@) == text_before(a@.skip(i as int), b@.skip(i as int)),
        decreases a@.len() - i,
    {
        assert(a@.skip(i as int).drop_first() =~= a@.skip(i + 1));
        assert(b@.skip(i as int).drop_first() =~= b@.skip(i + 1));
        i += 1;
    }
    if i == b.len() {
        false
    } else if i == a.len() {
        true
    } else {
        a[i] < b[i]
    }
}

fn kind_rank_exec(k: &EdgeKind) -> (r: u8)
    ensures
        r as int == kind_rank(*k),
{
    match k {
        EdgeKind::Contains => 0,
        EdgeKind::References => 1,
        EdgeKind::Sequence => 2,
    }
}

fn node_before(a: &Node, b: &Node) -> (r: bool)
    ensures
        r == (node_order())(a@, b@),
{
    text_before_exec(&chars_of(a.id.as_str()), &chars_of(b.id.as_str()))
}

fn edge_before(a: &Edge, b: &Edge) -> (r: bool)
    ensures
        r == (edge_order())(a@, b@),
{
    let (s1, s2) = (chars_of(a.source.as_str()), chars_of(b.source.as_str()));
    if text_before_exec(&s1, &s2) {
        return true;
    }
    if !crate::text::seq_eq(&s1, &s2) {
        return false;
    }
    let (t1, t2) = (chars_of(a.target.as_str()), chars_of(b.target.as_str()));
    if text_before_exec(&t1, &t2) {
        return true;
    }
    crate::text::seq_eq(&t1, &t2) && kind_rank_exec(&a.kind) < kind_rank_exec(&b.kind)
}

fn sort_nodes(v: &Vec<Node>) -> (r: Vec<Node>)
    ensures
        node_views(r@) == stable_sort(node_views(v@), node_order()),
{
    let ghost nv = node_views(v@);
    let mut out: Vec<Node> = Vec::new();
    let mut k: usize = 0;
    while k < v.len()
        invariant
            k <= v@.len(),
            nv == node_views(v@),
            node_views(out@) == stable_sort(nv.take(k as int), node_order()),
        decreases v@.len() - k,
    {
        let ghost sofar = node_views(out@);
        assert(nv.take(k + 1).drop_last() =~= nv.take(k as int));
        assert(nv.take(k + 1).last() == v@[k as int]@);
        proof {
            lemma_stable_sort_len(nv.take(k as int), node_order());
        }
        let mut p: usize = 0;
        while p < out.len() && !node_before(&v[k], &out[p])
            invariant
                p <= out@.len(),
                k < v@.len(),
                sofar == node_views(out@),
                first_after(sofar, v@[k as int]@, node_order(), 0) == first_after(sofar, v@[k as int]@, node_order(), p as int),
            decreases out@.len() - p,
        {
            p += 1;
        }
        let n = v[k].duplicate();
        let ghost nview = n@;
        out.insert(p, n);
        assert(node_views(out@) =~= sofar.insert(p as int, nview));
        k += 1;
    }
    assert(nv.take(nv.len() as int) =~= nv);
    out
}

fn sort_edges(v: &Vec<Edge>) -> (r: Vec<Edge>)
    ensures
        edge_views(r@) == stable_sort(edge_views(v@), edge_order()),
{
    let ghost ev = edge_views(v@);
    let mut out: Vec<Edge> = Vec::new();
    let mut k: usize = 0;
    while k < v.len()
        invariant
            k <= v@.len(),
            ev == edge_views(v@),
            edge_views(out@) == stable_sort(ev.take(k as int), edge_order()),
        decreases v@.len() - k,
    {
        let ghost sofar = edge_views(out@);
        assert(ev.take(k + 1).drop_last() =~= ev.take(k as int));
        assert(ev.take(k + 1).last() == v@[k as int]@);
        let mut p: usize = 0;
        while p < out.len() && !edge_before(&v[k], &out[p])
            invariant
                p <= out@.len(),
                k < v@.len(),
                sofar == edge_views(out@),
                first_after(sofar, v@[k as int]@, edge_order(), 0) == first_after(sofar, v@[k as int]@, edge_order(), p as int),
            decreases out@.len() - p,
        {
            p += 1;
        }
        let e = v[k].duplicate();
        let ghost eview = e@;
        out.insert(p, e);
        assert(edge_views(out@) =~= sofar.insert(p as int, eview));
        k += 1;
    }
    assert(ev.take(ev.len() as int) =~= ev);
    out
}

impl Graph {
    /// Sorts the nodes by id and the edges by source, target and kind, keeping the order
    /// of equal ones.
    pub fn sort(&mut self)
        ensures
            final(self)@ == sorted_graph(old(self)@),
    {
        let nodes = sort_nodes(&self.nodes);
        let edges = sort_edges(&self.edges);
        self.nodes = nodes;
        self.edges = edges;
    }
}

} // verus!
