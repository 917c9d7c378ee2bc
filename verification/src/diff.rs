//! Differences between two scans: nodes added, removed and changed (by id), edges added
//! and removed (by source, target and kind).

use vstd::prelude::*;

use crate::graph::{
    edge_views, node_views, opt_str_view, Edge, EdgeKind, EdgeView, Graph, GraphView, Metadata,
    Node, NodeView,
};
use crate::status::node_of;

verus! {

pub struct NodeChange {
    pub id: String,
    pub before: Node,
    pub after: Node,
}

pub struct NodeDiff {
    pub added: Vec<Node>,
    pub removed: Vec<Node>,
    pub changed: Vec<NodeChange>,
}

pub struct EdgeDiff {
    pub added: Vec<Edge>,
    pub removed: Vec<Edge>,
}

pub struct DiffOutput {
    pub nodes: NodeDiff,
    pub edges: EdgeDiff,
}

pub struct ChangeView {
    pub id: Seq<char>,
    pub before: NodeView,
    pub after: NodeView,
}

pub struct DiffView {
    pub added: Seq<NodeView>,
    pub removed: Seq<NodeView>,
    pub changed: Seq<ChangeView>,
    pub added_edges: Seq<(Seq<char>, Seq<char>, Seq<char>)>,
    pub removed_edges: Seq<(Seq<char>, Seq<char>, Seq<char>)>,
}

impl View for NodeChange {
    type V = ChangeView;

    open spec fn view(&self) -> ChangeView {
        ChangeView { id: self.id@, before: self.before@, after: self.after@ }
    }
}

pub open spec fn change_views(v: Seq<NodeChange>) -> Seq<ChangeView> {
    v.map_values(|c: NodeChange| c@)
}

pub open spec fn kind_word(k: EdgeKind) -> Seq<char> {
    match k {
        EdgeKind::Contains => "contains"@,
        EdgeKind::References => "references"@,
        EdgeKind::Sequence => "sequence"@,
    }
}

/// What identifies an edge: its source, target and kind.
pub open spec fn key_of(e: EdgeView) -> (Seq<char>, Seq<char>, Seq<char>) {
    (e.source, e.target, kind_word(e.kind))
}

pub open spec fn key_views(v: Seq<Edge>) -> Seq<(Seq<char>, Seq<char>, Seq<char>)> {
    v.map_values(|e: Edge| key_of(e@))
}

impl View for DiffOutput {
    type V = DiffView;

    open spec fn view(&self) -> DiffView {
        DiffView {
            added: node_views(self.nodes.added@),
            removed: node_views(self.nodes.removed@),
            changed: change_views(self.nodes.changed@),
            added_edges: key_views(self.edges.added@),
            removed_edges: key_views(self.edges.removed@),
        }
    }
}

pub open spec fn has_node_id(nodes: Seq<NodeView>, id: Seq<char>) -> bool {
    exists|i: int| 0 <= i < nodes.len() && nodes[i].id == id
}

pub open spec fn has_key(edges: Seq<EdgeView>, k: (Seq<char>, Seq<char>, Seq<char>)) -> bool {
    exists|i: int| 0 <= i < edges.len() && key_of(edges[i]) == k
}

/// The nodes whose id occurs in `x` but not in `y`: one per id, in the order of first
/// occurrence in `x`, each the last node of `x` with that id. `pre` is the part of `x`
/// walked so far.
pub open spec fn only_in(x: Seq<NodeView>, y: Seq<NodeView>, pre: Seq<NodeView>) -> Seq<NodeView>
    decreases pre.len(),
{
    if pre.len() == 0 {
        Seq::empty()
    } else {
        let r = only_in(x, y, pre.drop_last());
        let id = pre.last().id;
        if !has_node_id(pre.drop_last(), id) && !has_node_id(y, id) {
            r.push(node_of(x, id).unwrap())
        } else {
            r
        }
    }
}

/// The ids in both graphs whose nodes differ, in the order of first occurrence in `a`.
pub open spec fn changed_in(b: Seq<NodeView>, a: Seq<NodeView>, pre: Seq<NodeView>) -> Seq<ChangeView>
    decreases pre.len(),
{
    if pre.len() == 0 {
        Seq::empty()
    } else {
        let r = changed_in(b, a, pre.drop_last());
        let id = pre.last().id;
        if !has_node_id(pre.drop_last(), id) && has_node_id(b, id) && node_of(b, id) != node_of(a, id) {
            r.push(ChangeView { id, before: node_of(b, id).unwrap(), after: node_of(a, id).unwrap() })
        } else {
            r
        }
    }
}

/// The edge keys of `x` missing from `y`, once each, in order of first occurrence.
pub open spec fn keys_only_in(y: Seq<EdgeView>, pre: Seq<EdgeView>) -> Seq<(Seq<char>, Seq<char>, Seq<char>)>
    decreases pre.len(),
{
    if pre.len() == 0 {
        Seq::empty()
    } else {
        let r = keys_only_in(y, pre.drop_last());
        let k = key_of(pre.last());
        if !has_key(pre.drop_last(), k) && !has_key(y, k) {
            r.push(k)
        } else {
            r
        }
    }
}

pub open spec fn diff_spec(before: GraphView, after: GraphView) -> DiffView {
    DiffView {
        added: only_in(after.nodes, before.nodes, after.nodes),
        removed: only_in(before.nodes, after.nodes, before.nodes),
        changed: changed_in(before.nodes, after.nodes, after.nodes),
        added_edges: keys_only_in(before.edges, after.edges),
        removed_edges: keys_only_in(after.edges, before.edges),
    }
}

fn lit(s: &str) -> (r: String)
    ensures
        r@ == s@,
{
    String::from_str(s)
}

/// The key that identifies an edge: source, target and kind name.
pub fn edge_key(e: &Edge) -> (r: (String, String, String))
    ensures
        (r.0@, r.1@, r.2@) == key_of(e@),
{
    let kind = match e.kind {
        EdgeKind::Contains => lit("contains"),
        EdgeKind::References => lit("references"),
        EdgeKind::Sequence => lit("sequence"),
    };
    (e.source.clone(), e.target.clone(), kind)
}

fn opt_eq(a: &Option<String>, b: &Option<String>) -> (r: bool)
    ensures
        r == (opt_str_view(*a) == opt_str_view(*b)),
{
    match (a, b) {
        (Some(x), Some(y)) => *x == *y,
        (None, None) => true,
        _ => false,
    }
}

fn meta_eq(a: &Option<Metadata>, b: &Option<Metadata>) -> (r: bool)
    ensures
        r == (crate::graph::opt_meta_view(*a) == crate::graph::opt_meta_view(*b)),
{
    match (a, b) {
        (Some(x), Some(y)) => x.level == y.level && opt_eq(&x.status, &y.status) && opt_eq(
            &x.stable_id,
            &y.stable_id,
        ),
        (None, None) => true,
        _ => false,
    }
}

fn node_eq(a: &Node, b: &Node) -> (r: bool)
    ensures
        r == (a@ == b@),
{
    a.id == b.id && a.kind == b.kind && a.source == b.source && a.label == b.label && meta_eq(
        &a.metadata,
        &b.metadata,
    )
}

fn has_id_in(nodes: &Vec<Node>, upto: usize, id: &String) -> (r: bool)
    requires
        upto <= nodes@.len(),
    ensures
        r == has_node_id(node_views(nodes@).take(upto as int), id@),
{
    let ghost nv = node_views(nodes@).take(upto as int);
    let mut i: usize = 0;
    while i < upto
        invariant
            i <= upto <= nodes@.len(),
            nv == node_views(nodes@).take(upto as int),
            forall|j: int| 0 <= j < i ==> nv[j].id != id@,
        decreases upto - i,
    {
        assert(nv[i as int] == nodes@[i as int]@);
        if nodes[i].id == *id {
            return true;
        }
        i += 1;
    }
    false
}

fn last_with_id(nodes: &Vec<Node>, id: &String) -> (r: Option<usize>)
    ensures
        match r {
            Some(i) => i < nodes@.len() && node_of(node_views(nodes@), id@) == Some(nodes@[i as int]@),
            None => node_of(node_views(nodes@), id@) is None,
        },
{
    let ghost nv = node_views(nodes@);
    let mut i: usize = nodes.len();
    assert(nv.take(nv.len() as int) =~= nv);
    while i > 0
        invariant
            i <= nodes@.len(),
            nv == node_views(nodes@),
            node_of(nv, id@) == node_of(nv.take(i as int), id@),
        decreases i,
    {
        assert(nv.take(i as int).last() == nodes@[i - 1]@);
        assert(nv.take(i as int).drop_last() =~= nv.take(i - 1));
        if nodes[i - 1].id == *id {
            return Some(i - 1);
        }
        i -= 1;
    }
    None
}

proof fn lemma_node_of_found(nodes: Seq<NodeView>, id: Seq<char>)
    requires
        has_node_id(nodes, id),
    ensures
        node_of(nodes, id) is Some,
    decreases nodes.len(),
{
    if nodes.last().id != id {
        let i = choose|i: int| 0 <= i < nodes.len() && nodes[i].id == id;
        assert(nodes.drop_last()[i] == nodes[i]);
        lemma_node_of_found(nodes.drop_last(), id);
    }
}

fn nodes_only_in(x: &Vec<Node>, y: &Vec<Node>) -> (r: Vec<Node>)
    ensures
        node_views(r@) == only_in(node_views(x@), node_views(y@), node_views(x@)),
{
    let ghost xv = node_views(x@);
    let ghost yv = node_views(y@);
    let mut r: Vec<Node> = Vec::new();
    let mut i: usize = 0;
    while i < x.len()
        invariant
            i <= x@.len(),
            xv == node_views(x@),
            yv == node_views(y@),
            node_views(r@) == only_in(xv, yv, xv.take(i as int)),
        decreases x@.len() - i,
    {
        assert(xv.take(i + 1).drop_last() =~= xv.take(i as int));
        assert(xv.take(i + 1).last() == x@[i as int]@);
        let id = &x[i].id;
        if !has_id_in(x, i, id) && !has_id_in(y, y.len(), id) {
            assert(y@.len() == yv.len());
            assert(yv.take(yv.len() as int) =~= yv);
            proof {
                assert(xv[i as int].id == id@);
                lemma_node_of_found(xv, id@);
            }
            let k = last_with_id(x, id).unwrap();
            let ghost before = node_views(r@);
            r.push(x[k].duplicate());
            assert(node_views(r@) =~= before.push(x@[k as int]@));
        } else {
            assert(yv.take(yv.len() as int) =~= yv);
        }
        i += 1;
    }
    assert(xv.take(xv.len() as int) =~= xv);
    r
}

fn nodes_changed(b: &Vec<Node>, a: &Vec<Node>) -> (r: Vec<NodeChange>)
    ensures
        change_views(r@) == changed_in(node_views(b@), node_views(a@), node_views(a@)),
{
    let ghost av = node_views(a@);
    let ghost bv = node_views(b@);
    let mut r: Vec<NodeChange> = Vec::new();
    let mut i: usize = 0;
    assert(bv.take(bv.len() as int) =~= bv);
    while i < a.len()
        invariant
            i <= a@.len(),
            av == node_views(a@),
            bv == node_views(b@),
            bv.take(bv.len() as int) == bv,
            change_views(r@) == changed_in(bv, av, av.take(i as int)),
        decreases a@.len() - i,
    {
        assert(av.take(i + 1).drop_last() =~= av.take(i as int));
        assert(av.take(i + 1).last() == a@[i as int]@);
        let id = &a[i].id;
        if !has_id_in(a, i, id) && has_id_in(b, b.len(), id) {
            proof {
                assert(av[i as int].id == id@);
                lemma_node_of_found(av, id@);
                lemma_node_of_found(bv, id@);
            }
            let kb = last_with_id(b, id).unwrap();
            let ka = last_with_id(a, id).unwrap();
            if !node_eq(&b[kb], &a[ka]) {
                let c = NodeChange { id: id.clone(), before: b[kb].duplicate(), after: a[ka].duplicate() };
                let ghost before = change_views(r@);
                r.push(c);
                assert(change_views(r@) =~= before.push(c@));
            }
        }
        i += 1;
    }
    assert(av.take(av.len() as int) =~= av);
    r
}

fn has_key_in(edges: &Vec<Edge>, upto: usize, k: &(String, String, String)) -> (r: bool)
    requires
        upto <= edges@.len(),
    ensures
        r == has_key(edge_views(edges@).take(upto as int), (k.0@, k.1@, k.2@)),
{
    let ghost ev = edge_views(edges@).take(upto as int);
    let mut i: usize = 0;
    while i < upto
        invariant
            i <= upto <= edges@.len(),
            ev == edge_views(edges@).take(upto as int),
            forall|j: int| 0 <= j < i ==> key_of(ev[j]) != (k.0@, k.1@, k.2@),
        decreases upto - i,
    {
        assert(ev[i as int] == edges@[i as int]@);
        let ki = edge_key(&edges[i]);
        if ki.0 == k.0 && ki.1 == k.1 && ki.2 == k.2 {
            return true;
        }
        i += 1;
    }
    false
}

fn edges_only_in(x: &Vec<Edge>, y: &Vec<Edge>) -> (r: Vec<Edge>)
    ensures
        key_views(r@) == keys_only_in(edge_views(y@), edge_views(x@)),
{
    let ghost xv = edge_views(x@);
    let ghost yv = edge_views(y@);
    let mut r: Vec<Edge> = Vec::new();
    let mut i: usize = 0;
    assert(yv.take(yv.len() as int) =~= yv);
    while i < x.len()
        invariant
            i <= x@.len(),
            xv == edge_views(x@),
            yv == edge_views(y@),
            yv.take(yv.len() as int) == yv,
            key_views(r@) == keys_only_in(yv, xv.take(i as int)),
        decreases x@.len() - i,
    {
        assert(xv.take(i + 1).drop_last() =~= xv.take(i as int));
        assert(xv.take(i + 1).last() == x@[i as int]@);
        let k = edge_key(&x[i]);
        if !has_key_in(x, i, &k) && !has_key_in(y, y.len(), &k) {
            let ghost before = key_views(r@);
            r.push(x[i].duplicate());
            assert(key_views(r@) =~= before.push(key_of(x@[i as int]@)));
        }
        i += 1;
    }
    assert(xv.take(xv.len() as int) =~= xv);
    r
}

/// Compares two scans.
pub fn compute(before: &Graph, after: &Graph) -> (r: DiffOutput)
    ensures
        r@ == diff_spec(before@, after@),
{
    let added = nodes_only_in(&after.nodes, &before.nodes);
    let removed = nodes_only_in(&before.nodes, &after.nodes);
    let changed = nodes_changed(&before.nodes, &after.nodes);
    let added_edges = edges_only_in(&after.edges, &before.edges);
    let removed_edges = edges_only_in(&before.edges, &after.edges);
    DiffOutput {
        nodes: NodeDiff { added, removed, changed },
        edges: EdgeDiff { added: added_edges, removed: removed_edges },
    }
}


proof fn lemma_only_in_covered(x: Seq<NodeView>, y: Seq<NodeView>, pre: Seq<NodeView>)
    requires
        forall|i: int| 0 <= i < pre.len() ==> has_node_id(y, #[trigger] pre[i].id),
    ensures
        only_in(x, y, pre).len() == 0,
    decreases pre.len(),
{
    if pre.len() > 0 {
        let d = pre.drop_last();
        assert forall|i: int| 0 <= i < d.len() implies has_node_id(y, #[trigger] d[i].id) by {
            assert(d[i] == pre[i]);
        }
        lemma_only_in_covered(x, y, d);
        assert(has_node_id(y, pre[pre.len() - 1].id));
    }
}

proof fn lemma_changed_self(x: Seq<NodeView>, pre: Seq<NodeView>)
    ensures
        changed_in(x, x, pre).len() == 0,
    decreases pre.len(),
{
    if pre.len() > 0 {
        lemma_changed_self(x, pre.drop_last());
    }
}

proof fn lemma_keys_covered(y: Seq<EdgeView>, pre: Seq<EdgeView>)
    requires
        forall|i: int| 0 <= i < pre.len() ==> has_key(y, key_of(#[trigger] pre[i])),
    ensures
        keys_only_in(y, pre).len() == 0,
    decreases pre.len(),
{
    if pre.len() > 0 {
        let d = pre.drop_last();
        assert forall|i: int| 0 <= i < d.len() implies has_key(y, key_of(#[trigger] d[i])) by {
            assert(d[i] == pre[i]);
        }
        lemma_keys_covered(y, d);
        assert(has_key(y, key_of(pre[pre.len() - 1])));
    }
}

/// Comparing a scan with itself finds no difference.
pub proof fn lemma_diff_of_same_graph_is_empty(g: GraphView)
    ensures
        diff_spec(g, g).added.len() == 0,
        diff_spec(g, g).removed.len() == 0,
        diff_spec(g, g).changed.len() == 0,
        diff_spec(g, g).added_edges.len() == 0,
        diff_spec(g, g).removed_edges.len() == 0,
{
    assert forall|i: int| 0 <= i < g.nodes.len() implies has_node_id(g.nodes, #[trigger] g.nodes[i].id) by {}
    assert forall|i: int| 0 <= i < g.edges.len() implies has_key(g.edges, key_of(#[trigger] g.edges[i])) by {}
    lemma_only_in_covered(g.nodes, g.nodes, g.nodes);
    lemma_changed_self(g.nodes, g.nodes);
    lemma_keys_covered(g.edges, g.edges);
}

/// What one direction reports as added, the other reports as removed, nodes and edges.
pub proof fn lemma_diff_swap(a: GraphView, b: GraphView)
    ensures
        diff_spec(a, b).added == diff_spec(b, a).removed,
        diff_spec(a, b).added_edges == diff_spec(b, a).removed_edges,
{
}

proof fn lemma_only_in_ids(x: Seq<NodeView>, y: Seq<NodeView>, pre: Seq<NodeView>)
    requires
        forall|i: int| 0 <= i < pre.len() ==> has_node_id(x, #[trigger] pre[i].id),
    ensures
        forall|j: int|
            0 <= j < only_in(x, y, pre).len() ==> !has_node_id(y, #[trigger] only_in(x, y, pre)[j].id)
                && has_node_id(x, only_in(x, y, pre)[j].id),
    decreases pre.len(),
{
    if pre.len() > 0 {
        let d = pre.drop_last();
        assert forall|i: int| 0 <= i < d.len() implies has_node_id(x, #[trigger] d[i].id) by {
            assert(d[i] == pre[i]);
        }
        lemma_only_in_ids(x, y, d);
        let id = pre.last().id;
        if !has_node_id(d, id) && !has_node_id(y, id) {
            assert(has_node_id(x, pre[pre.len() - 1].id));
            lemma_node_of_found(x, id);
            lemma_node_of_id(x, id);
            let r = only_in(x, y, d);
            assert forall|j: int|
                0 <= j < only_in(x, y, pre).len() implies !has_node_id(y, #[trigger] only_in(x, y, pre)[j].id)
                    && has_node_id(x, only_in(x, y, pre)[j].id) by {
                if j < r.len() {
                    assert(only_in(x, y, pre)[j] == r[j]);
                }
            }
        }
    }
}

proof fn lemma_node_of_id(nodes: Seq<NodeView>, id: Seq<char>)
    requires
        node_of(nodes, id) is Some,
    ensures
        node_of(nodes, id).unwrap().id == id,
        has_node_id(nodes, id),
    decreases nodes.len(),
{
    if nodes.last().id != id {
        lemma_node_of_id(nodes.drop_last(), id);
        let i = choose|i: int| 0 <= i < nodes.drop_last().len() && nodes.drop_last()[i].id == id;
        assert(nodes[i] == nodes.drop_last()[i]);
    } else {
        assert(nodes[nodes.len() - 1].id == id);
    }
}

/// An added node has an id found only in the later scan; a removed one, only in the
/// earlier scan.
pub proof fn lemma_added_only_after(before: GraphView, after: GraphView)
    ensures
        forall|j: int|
            0 <= j < diff_spec(before, after).added.len() ==> !has_node_id(before.nodes, #[trigger] diff_spec(before, after).added[j].id)
                && has_node_id(after.nodes, diff_spec(before, after).added[j].id),
        forall|j: int|
            0 <= j < diff_spec(before, after).removed.len() ==> !has_node_id(after.nodes, #[trigger] diff_spec(before, after).removed[j].id)
                && has_node_id(before.nodes, diff_spec(before, after).removed[j].id),
{
    assert forall|i: int| 0 <= i < after.nodes.len() implies has_node_id(after.nodes, #[trigger] after.nodes[i].id) by {}
    assert forall|i: int| 0 <= i < before.nodes.len() implies has_node_id(before.nodes, #[trigger] before.nodes[i].id) by {}
    lemma_only_in_ids(after.nodes, before.nodes, after.nodes);
    lemma_only_in_ids(before.nodes, after.nodes, before.nodes);
}

proof fn lemma_has_key_last(pre: Seq<EdgeView>, k: (Seq<char>, Seq<char>, Seq<char>))
    requires
        pre.len() > 0,
    ensures
        has_key(pre, k) <==> has_key(pre.drop_last(), k) || key_of(pre.last()) == k,
{
    let d = pre.drop_last();
    if has_key(pre, k) {
        let i = choose|i: int| 0 <= i < pre.len() && key_of(pre[i]) == k;
        if i < d.len() {
            assert(d[i] == pre[i]);
        }
    }
    if has_key(d, k) {
        let i = choose|i: int| 0 <= i < d.len() && key_of(d[i]) == k;
        assert(pre[i] == d[i]);
    }
    if key_of(pre.last()) == k {
        assert(key_of(pre[pre.len() - 1]) == k);
    }
}

proof fn lemma_has_node_id_last(pre: Seq<NodeView>, id: Seq<char>)
    requires
        pre.len() > 0,
    ensures
        has_node_id(pre, id) <==> has_node_id(pre.drop_last(), id) || pre.last().id == id,
{
    let d = pre.drop_last();
    if has_node_id(pre, id) {
        let i = choose|i: int| 0 <= i < pre.len() && pre[i].id == id;
        if i < d.len() {
            assert(d[i] == pre[i]);
        }
    }
    if has_node_id(d, id) {
        let i = choose|i: int| 0 <= i < d.len() && d[i].id == id;
        assert(pre[i] == d[i]);
    }
    if pre.last().id == id {
        assert(pre[pre.len() - 1].id == id);
    }
}

/// The keys of `pre` missing from `y` are listed, each exactly once.
proof fn lemma_keys_only_in_set(y: Seq<EdgeView>, pre: Seq<EdgeView>)
    ensures
        forall|k: (Seq<char>, Seq<char>, Seq<char>)| #[trigger] keys_only_in(y, pre).contains(k) <==> has_key(pre, k) && !has_key(y, k),
        keys_only_in(y, pre).no_duplicates(),
    decreases pre.len(),
{
    if pre.len() > 0 {
        let d = pre.drop_last();
        lemma_keys_only_in_set(y, d);
        let r = keys_only_in(y, d);
        let k0 = key_of(pre.last());
        assert forall|k: (Seq<char>, Seq<char>, Seq<char>)| #[trigger] keys_only_in(y, pre).contains(k) <==> has_key(pre, k) && !has_key(y, k) by {
            lemma_has_key_last(pre, k);
            if !has_key(d, k0) && !has_key(y, k0) {
                assert(keys_only_in(y, pre) == r.push(k0));
                if r.push(k0).contains(k) && k != k0 {
                    let j = choose|j: int| 0 <= j < r.push(k0).len() && r.push(k0)[j] == k;
                    assert(r[j] == k);
                }
                if r.contains(k) {
                    let j = choose|j: int| 0 <= j < r.len() && r[j] == k;
                    assert(r.push(k0)[j] == k);
                }
                if k == k0 {
                    assert(r.push(k0)[r.len() as int] == k0);
                }
            }
        }
        if !has_key(d, k0) && !has_key(y, k0) {
            assert(!r.contains(k0));
            assert forall|i: int, j: int| 0 <= i < r.push(k0).len() && 0 <= j < r.push(k0).len() && i != j implies r.push(k0)[i] != r.push(k0)[j] by {
                if i < r.len() && j < r.len() {
                } else if i < r.len() {
                    assert(r.contains(r[i]));
                } else if j < r.len() {
                    assert(r.contains(r[j]));
                }
            }
        }
    }
}

pub open spec fn change_ids(s: Seq<ChangeView>) -> Seq<Seq<char>> {
    s.map_values(|c: ChangeView| c.id)
}

pub open spec fn ids_of(s: Seq<NodeView>) -> Seq<Seq<char>> {
    s.map_values(|n: NodeView| n.id)
}

/// The ids of `pre` missing from `y` are listed, each exactly once, each with the last
/// node of `x` that has it.
proof fn lemma_only_in_set(x: Seq<NodeView>, y: Seq<NodeView>, pre: Seq<NodeView>)
    requires
        forall|i: int| 0 <= i < pre.len() ==> has_node_id(x, #[trigger] pre[i].id),
    ensures
        forall|id: Seq<char>| #[trigger] ids_of(only_in(x, y, pre)).contains(id) <==> has_node_id(pre, id) && !has_node_id(y, id),
        ids_of(only_in(x, y, pre)).no_duplicates(),
        forall|j: int| 0 <= j < only_in(x, y, pre).len() ==> Some(#[trigger] only_in(x, y, pre)[j]) == node_of(x, only_in(x, y, pre)[j].id),
    decreases pre.len(),
{
    if pre.len() > 0 {
        let d = pre.drop_last();
        assert forall|i: int| 0 <= i < d.len() implies has_node_id(x, #[trigger] d[i].id) by {
            assert(d[i] == pre[i]);
        }
        lemma_only_in_set(x, y, d);
        let r = only_in(x, y, d);
        let id0 = pre.last().id;
        let add = !has_node_id(d, id0) && !has_node_id(y, id0);
        assert(has_node_id(x, pre[pre.len() - 1].id));
        lemma_node_of_found(x, id0);
        lemma_node_of_id(x, id0);
        let q = only_in(x, y, pre);
        assert forall|id: Seq<char>| #[trigger] ids_of(q).contains(id) <==> has_node_id(pre, id) && !has_node_id(y, id) by {
            lemma_has_node_id_last(pre, id);
            if add {
                assert(ids_of(q) =~= ids_of(r).push(node_of(x, id0).unwrap().id));
                if ids_of(q).contains(id) && !ids_of(r).contains(id) {
                    let j = choose|j: int| 0 <= j < ids_of(q).len() && ids_of(q)[j] == id;
                    if j < ids_of(r).len() {
                        assert(ids_of(r)[j] == id);
                    }
                }
                if ids_of(r).contains(id) {
                    let j = choose|j: int| 0 <= j < ids_of(r).len() && ids_of(r)[j] == id;
                    assert(ids_of(q)[j] == id);
                }
                if id == id0 {
                    assert(ids_of(q)[ids_of(r).len() as int] == id0);
                }
            } else {
                assert(q == r);
            }
        }
        if add {
            assert(!ids_of(r).contains(id0));
            let qi = ids_of(q);
            assert(qi =~= ids_of(r).push(id0));
            assert forall|i: int, j: int| 0 <= i < qi.len() && 0 <= j < qi.len() && i != j implies qi[i] != qi[j] by {
                if i < ids_of(r).len() && j < ids_of(r).len() {
                } else if i < ids_of(r).len() {
                    assert(ids_of(r).contains(ids_of(r)[i]));
                } else if j < ids_of(r).len() {
                    assert(ids_of(r).contains(ids_of(r)[j]));
                }
            }
            assert forall|j: int| 0 <= j < q.len() implies Some(#[trigger] q[j]) == node_of(x, q[j].id) by {
                if j < r.len() {
                    assert(q[j] == r[j]);
                }
            }
        }
    }
}

/// The ids of `pre` found in both graphs with different nodes are listed, each exactly
/// once, each with its last node in each graph.
proof fn lemma_changed_in_set(b: Seq<NodeView>, a: Seq<NodeView>, pre: Seq<NodeView>)
    requires
        forall|i: int| 0 <= i < pre.len() ==> has_node_id(a, #[trigger] pre[i].id),
    ensures
        forall|id: Seq<char>| #[trigger] change_ids(changed_in(b, a, pre)).contains(id) <==> has_node_id(pre, id) && has_node_id(b, id) && node_of(b, id) != node_of(a, id),
        change_ids(changed_in(b, a, pre)).no_duplicates(),
        forall|j: int| 0 <= j < changed_in(b, a, pre).len() ==> Some((#[trigger] changed_in(b, a, pre)[j]).before) == node_of(b, changed_in(b, a, pre)[j].id)
            && Some(changed_in(b, a, pre)[j].after) == node_of(a, changed_in(b, a, pre)[j].id),
    decreases pre.len(),
{
    if pre.len() > 0 {
        let d = pre.drop_last();
        assert forall|i: int| 0 <= i < d.len() implies has_node_id(a, #[trigger] d[i].id) by {
            assert(d[i] == pre[i]);
        }
        lemma_changed_in_set(b, a, d);
        assert(has_node_id(a, pre[pre.len() - 1].id));
        let r = changed_in(b, a, d);
        let ri = change_ids(r);
        let id0 = pre.last().id;
        let add = !has_node_id(d, id0) && has_node_id(b, id0) && node_of(b, id0) != node_of(a, id0);
        let q = changed_in(b, a, pre);
        let qi = change_ids(q);
        if add {
            lemma_node_of_found(b, id0);
            lemma_node_of_found(a, id0);
            assert(qi =~= ri.push(id0));
        } else {
            assert(q == r);
            assert(qi =~= ri);
        }
        assert forall|id: Seq<char>| #[trigger] qi.contains(id) <==> has_node_id(pre, id) && has_node_id(b, id) && node_of(b, id) != node_of(a, id) by {
            lemma_has_node_id_last(pre, id);
            if add {
                if qi.contains(id) && id != id0 {
                    let j = choose|j: int| 0 <= j < qi.len() && qi[j] == id;
                    assert(ri[j] == id);
                }
                if ri.contains(id) {
                    let j = choose|j: int| 0 <= j < ri.len() && ri[j] == id;
                    assert(qi[j] == id);
                }
                if id == id0 {
                    assert(qi[ri.len() as int] == id0);
                }
            }
        }
        if add {
            assert(!ri.contains(id0));
            assert forall|i: int, j: int| 0 <= i < qi.len() && 0 <= j < qi.len() && i != j implies qi[i] != qi[j] by {
                if i < ri.len() && j < ri.len() {
                } else if i < ri.len() {
                    assert(ri.contains(ri[i]));
                } else if j < ri.len() {
                    assert(ri.contains(ri[j]));
                }
            }
            assert forall|j: int| 0 <= j < q.len() implies Some((#[trigger] q[j]).before) == node_of(b, q[j].id) && Some(q[j].after) == node_of(a, q[j].id) by {
                if j < r.len() {
                    assert(q[j] == r[j]);
                }
            }
        }
    }
}

/// What a diff lists, as sets: added, the ids only in the later graph; removed, the ids
/// only in the earlier one; changed, the ids in both whose nodes differ (each listed with
/// its node before and after); added and removed edges, the edge keys only in the later or
/// only in the earlier graph. No list repeats an id or key, and each listed node is the
/// graph's (last) node with that id.
pub proof fn lemma_diff_sets(before: GraphView, after: GraphView)
    ensures
        forall|id: Seq<char>| #[trigger] ids_of(diff_spec(before, after).added).contains(id) <==> has_node_id(after.nodes, id) && !has_node_id(before.nodes, id),
        forall|id: Seq<char>| #[trigger] ids_of(diff_spec(before, after).removed).contains(id) <==> has_node_id(before.nodes, id) && !has_node_id(after.nodes, id),
        forall|id: Seq<char>| #[trigger] change_ids(diff_spec(before, after).changed).contains(id)
            <==> has_node_id(after.nodes, id) && has_node_id(before.nodes, id) && node_of(before.nodes, id) != node_of(after.nodes, id),
        forall|k: (Seq<char>, Seq<char>, Seq<char>)| #[trigger] diff_spec(before, after).added_edges.contains(k) <==> has_key(after.edges, k) && !has_key(before.edges, k),
        forall|k: (Seq<char>, Seq<char>, Seq<char>)| #[trigger] diff_spec(before, after).removed_edges.contains(k) <==> has_key(before.edges, k) && !has_key(after.edges, k),
        ids_of(diff_spec(before, after).added).no_duplicates(),
        ids_of(diff_spec(before, after).removed).no_duplicates(),
        change_ids(diff_spec(before, after).changed).no_duplicates(),
        diff_spec(before, after).added_edges.no_duplicates(),
        diff_spec(before, after).removed_edges.no_duplicates(),
        forall|j: int| 0 <= j < diff_spec(before, after).added.len() ==> Some(#[trigger] diff_spec(before, after).added[j]) == node_of(after.nodes, diff_spec(before, after).added[j].id),
        forall|j: int| 0 <= j < diff_spec(before, after).removed.len() ==> Some(#[trigger] diff_spec(before, after).removed[j]) == node_of(before.nodes, diff_spec(before, after).removed[j].id),
        forall|j: int| 0 <= j < diff_spec(before, after).changed.len() ==> Some((#[trigger] diff_spec(before, after).changed[j]).before) == node_of(before.nodes, diff_spec(before, after).changed[j].id)
            && Some(diff_spec(before, after).changed[j].after) == node_of(after.nodes, diff_spec(before, after).changed[j].id),
{
    assert forall|i: int| 0 <= i < after.nodes.len() implies has_node_id(after.nodes, #[trigger] after.nodes[i].id) by {}
    assert forall|i: int| 0 <= i < before.nodes.len() implies has_node_id(before.nodes, #[trigger] before.nodes[i].id) by {}
    lemma_only_in_set(after.nodes, before.nodes, after.nodes);
    lemma_only_in_set(before.nodes, after.nodes, before.nodes);
    lemma_changed_in_set(before.nodes, after.nodes, after.nodes);
    lemma_keys_only_in_set(before.edges, after.edges);
    lemma_keys_only_in_set(after.edges, before.edges);
}

} // verus!
