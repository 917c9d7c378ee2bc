//! What the web server computes: the parts of the graph it shows (roadmap, archive,
//! detail documents) and the task a request names.

use vstd::prelude::*;

use crate::graph::{edge_views, node_views, stable_id_of, Edge, EdgeView, Graph, GraphView, Node, NodeView};
use crate::query::{node_id_in, prune_edges};
use crate::text::{chars_of, seq_eq, starts_with, starts_with_s};

verus! {

/// The nodes whose id starts with `prefix`, in order.
pub open spec fn nodes_with_prefix(nodes: Seq<NodeView>, prefix: Seq<char>) -> Seq<NodeView>
    decreases nodes.len(),
{
    if nodes.len() == 0 {
        Seq::empty()
    } else {
        let r = nodes_with_prefix(nodes.drop_last(), prefix);
        if starts_with_s(nodes.last().id, prefix) {
            r.push(nodes.last())
        } else {
            r
        }
    }
}

/// The part of a graph whose node ids start with `prefix`: those nodes, and the edges
/// between them.
pub open spec fn prefix_part(g: GraphView, prefix: Seq<char>) -> GraphView {
    let nodes = nodes_with_prefix(g.nodes, prefix);
    GraphView { nodes, edges: prune_edges(g.edges, nodes) }
}

fn kept_has(kept: &Vec<Node>, id: &String) -> (r: bool)
    ensures
        r == node_id_in(node_views(kept@), id@),
{
    let mut i: usize = 0;
    while i < kept.len()
        invariant
            i <= kept@.len(),
            forall|j: int| 0 <= j < i ==> node_views(kept@)[j].id != id@,
        decreases kept@.len() - i,
    {
        assert(node_views(kept@)[i as int].id == kept@[i as int].id@);
        if kept[i].id == *id {
            return true;
        }
        i += 1;
    }
    false
}

/// The part of a graph whose node ids start with `prefix`.
pub fn filter_by_prefix(graph: &Graph, prefix: &str) -> (r: Graph)
    ensures
        r@ == prefix_part(graph@, prefix@),
{
    let ghost gv = graph@;
    let p = chars_of(prefix);
    let mut nodes: Vec<Node> = Vec::new();
    let mut i: usize = 0;
    while i < graph.nodes.len()
        invariant
            i <= graph.nodes@.len(),
            gv == graph@,
            p@ == prefix@,
            node_views(nodes@) == nodes_with_prefix(gv.nodes.take(i as int), prefix@),
        decreases graph.nodes@.len() - i,
    {
        assert(gv.nodes.take(i + 1).drop_last() =~= gv.nodes.take(i as int));
        assert(gv.nodes.take(i + 1).last() == graph.nodes@[i as int]@);
        if starts_with(&chars_of(graph.nodes[i].id.as_str()), &p) {
            let ghost before = node_views(nodes@);
            nodes.push(graph.nodes[i].duplicate());
            assert(node_views(nodes@) =~= before.push(graph.nodes@[i as int]@));
        }
        i += 1;
    }
    assert(gv.nodes.take(gv.nodes.len() as int) =~= gv.nodes);
    let ghost kept = node_views(nodes@);
    let mut edges: Vec<Edge> = Vec::new();
    let mut j: usize = 0;
    while j < graph.edges.len()
        invariant
            j <= graph.edges@.len(),
            gv == graph@,
            kept == node_views(nodes@),
            edge_views(edges@) == prune_edges(gv.edges.take(j as int), kept),
        decreases graph.edges@.len() - j,
    {
        assert(gv.edges.take(j + 1).drop_last() =~= gv.edges.take(j as int));
        assert(gv.edges.take(j + 1).last() == graph.edges@[j as int]@);
        let e = &graph.edges[j];
        if kept_has(&nodes, &e.source) && kept_has(&nodes, &e.target) {
            let ghost before = edge_views(edges@);
            edges.push(e.duplicate());
            assert(edge_views(edges@) =~= before.push(e@));
        }
        j += 1;
    }
    assert(gv.edges.take(gv.edges.len() as int) =~= gv.edges);
    Graph { nodes, edges }
}

/// The part of the graph from `ROADMAP.md`.
pub fn filter_roadmap_only(graph: &Graph) -> (r: Graph)
    ensures
        r@ == prefix_part(graph@, "ROADMAP.md"@),
{
    filter_by_prefix(graph, "ROADMAP.md")
}

/// The part of the graph from `ARCHIVE.md`.
pub fn filter_archive_only(graph: &Graph) -> (r: Graph)
    ensures
        r@ == prefix_part(graph@, "ARCHIVE.md"@),
{
    filter_by_prefix(graph, "ARCHIVE.md")
}

/// The part of the graph from the detail documents under `roadmap/`.
pub fn filter_roadmap_docs_only(graph: &Graph) -> (r: Graph)
    ensures
        r@ == prefix_part(graph@, "roadmap/"@),
{
    filter_by_prefix(graph, "roadmap/")
}

/// The first node with the given id or stable id.
pub open spec fn task_lookup(nodes: Seq<NodeView>, id: Seq<char>) -> Option<NodeView>
    decreases nodes.len(),
{
    if nodes.len() == 0 {
        None
    } else {
        match task_lookup(nodes.drop_last(), id) {
            Some(n) => Some(n),
            None => if nodes.last().id == id || stable_id_of(nodes.last()) == Some(id) {
                Some(nodes.last())
            } else {
                None
            },
        }
    }
}

proof fn lemma_task_lookup_prefix(nodes: Seq<NodeView>, id: Seq<char>, k: int)
    requires
        0 <= k <= nodes.len(),
        task_lookup(nodes.take(k), id) is Some,
    ensures
        task_lookup(nodes, id) == task_lookup(nodes.take(k), id),
    decreases nodes.len() - k,
{
    if k < nodes.len() {
        assert(nodes.take(k + 1).drop_last() =~= nodes.take(k));
        lemma_task_lookup_prefix(nodes, id, k + 1);
    } else {
        assert(nodes.take(k) =~= nodes);
    }
}

/// The node a task request names: by id or by stable id, the first such node.
pub fn find_task(graph: &Graph, id: &str) -> (r: Option<Node>)
    ensures
        match r {
            Some(n) => task_lookup(graph@.nodes, id@) == Some(n@),
            None => task_lookup(graph@.nodes, id@) is None,
        },
{
    let ghost nv = graph@.nodes;
    let target = chars_of(id);
    let mut i: usize = 0;
    while i < graph.nodes.len()
        invariant
            i <= graph.nodes@.len(),
            nv == graph@.nodes,
            target@ == id@,
            task_lookup(nv.take(i as int), id@) is None,
        decreases graph.nodes@.len() - i,
    {
        assert(nv.take(i + 1).drop_last() =~= nv.take(i as int));
        assert(nv.take(i + 1).last() == graph.nodes@[i as int]@);
        let n = &graph.nodes[i];
        let sid_hit = match n.stable_id() {
            Some(s) => seq_eq(&chars_of(s.as_str()), &target),
            None => false,
        };
        if seq_eq(&chars_of(n.id.as_str()), &target) || sid_hit {
            proof {
                lemma_task_lookup_prefix(nv, id@, i + 1);
            }
            return Some(n.duplicate());
        }
        i += 1;
    }
    assert(nv.take(nv.len() as int) =~= nv);
    None
}

/// The filtered parts keep only edges whose two ends they keep.
pub proof fn lemma_prefix_part_closed(g: GraphView, prefix: Seq<char>)
    ensures
        forall|i: int| 0 <= i < prefix_part(g, prefix).edges.len() ==> node_id_in(prefix_part(g, prefix).nodes, #[trigger] prefix_part(g, prefix).edges[i].source)
            && node_id_in(prefix_part(g, prefix).nodes, prefix_part(g, prefix).edges[i].target),
        forall|i: int| 0 <= i < prefix_part(g, prefix).nodes.len() ==> starts_with_s(#[trigger] prefix_part(g, prefix).nodes[i].id, prefix),
{
    let keep = nodes_with_prefix(g.nodes, prefix);
    crate::query::lemma_prune_edges_closed(g.edges, keep);
    lemma_nodes_with_prefix(g.nodes, prefix);
    let q = prefix_part(g, prefix);
    assert forall|i: int| 0 <= i < q.edges.len() implies node_id_in(q.nodes, #[trigger] q.edges[i].source)
        && node_id_in(q.nodes, q.edges[i].target) by {
        assert(q.edges[i] == prune_edges(g.edges, keep)[i]);
        assert(q.nodes == keep);
        assert(node_id_in(keep, prune_edges(g.edges, keep)[i].source));
    }
}

proof fn lemma_nodes_with_prefix(nodes: Seq<NodeView>, prefix: Seq<char>)
    ensures
        forall|i: int| 0 <= i < nodes_with_prefix(nodes, prefix).len() ==> starts_with_s(#[trigger] nodes_with_prefix(nodes, prefix)[i].id, prefix),
    decreases nodes.len(),
{
    if nodes.len() > 0 {
        lemma_nodes_with_prefix(nodes.drop_last(), prefix);
        let r = nodes_with_prefix(nodes.drop_last(), prefix);
        assert forall|i: int| 0 <= i < nodes_with_prefix(nodes, prefix).len() implies starts_with_s(#[trigger] nodes_with_prefix(nodes, prefix)[i].id, prefix) by {
            if i < r.len() {
                assert(nodes_with_prefix(nodes, prefix)[i] == r[i]);
            }
        }
    }
}

} // verus!
