use topo::diff::{compute, edge_key};
use topo::graph::{Edge, EdgeKind, Graph, Metadata, Node, NodeKind};

fn node(id: &str, label: &str) -> Node {
    Node {
        id: id.into(),
        kind: NodeKind::Task,
        source: "markdown".into(),
        label: label.into(),
        metadata: Some(Metadata { level: None, status: Some("todo".into()), stable_id: None }),
    }
}

fn edge(src: &str, tgt: &str) -> Edge {
    Edge { source: src.into(), target: tgt.into(), kind: EdgeKind::Contains }
}

#[test]
fn identical_graphs_empty_diff() {
    let g = Graph { nodes: vec![node("a", "A")], edges: vec![edge("r", "a")] };
    let d = compute(&g, &g);
    assert!(d.nodes.added.is_empty());
    assert!(d.nodes.removed.is_empty());
    assert!(d.nodes.changed.is_empty());
    assert!(d.edges.added.is_empty());
    assert!(d.edges.removed.is_empty());
}

#[test]
fn added_node() {
    let before = Graph::new();
    let after = Graph { nodes: vec![node("a", "A")], edges: vec![] };
    let d = compute(&before, &after);
    assert_eq!(d.nodes.added.len(), 1);
    assert_eq!(d.nodes.added[0].id, "a");
}

#[test]
fn removed_node() {
    let before = Graph { nodes: vec![node("a", "A")], edges: vec![] };
    let after = Graph::new();
    let d = compute(&before, &after);
    assert_eq!(d.nodes.removed.len(), 1);
    assert_eq!(d.nodes.removed[0].id, "a");
}

#[test]
fn changed_node() {
    let n1 = node("a", "A");
    let mut n2 = node("a", "A");
    n2.metadata = Some(Metadata { level: None, status: Some("done".into()), stable_id: None });
    let before = Graph { nodes: vec![n1], edges: vec![] };
    let after = Graph { nodes: vec![n2], edges: vec![] };
    let d = compute(&before, &after);
    assert_eq!(d.nodes.changed.len(), 1);
    assert_eq!(d.nodes.changed[0].id, "a");
}

#[test]
fn added_removed_edges() {
    let e1 = edge("a", "b");
    let e2 = edge("a", "c");
    let before = Graph { nodes: vec![], edges: vec![e1] };
    let after = Graph { nodes: vec![], edges: vec![e2] };
    let d = compute(&before, &after);
    assert_eq!(d.edges.added.len(), 1);
    assert_eq!(d.edges.added[0].target, "c");
    assert_eq!(d.edges.removed.len(), 1);
    assert_eq!(d.edges.removed[0].target, "b");
}

#[test]
fn swapped_graphs_swap_added_and_removed() {
    let before = Graph { nodes: vec![node("a", "A"), node("b", "B")], edges: vec![edge("a", "b")] };
    let after = Graph { nodes: vec![node("b", "B2"), node("c", "C")], edges: vec![edge("b", "c")] };
    let d1 = compute(&before, &after);
    let d2 = compute(&after, &before);
    assert_eq!(d1.nodes.added[0].id, "c");
    assert_eq!(d1.nodes.removed[0].id, "a");
    assert_eq!(d2.nodes.added[0].id, "a");
    assert_eq!(d2.nodes.removed[0].id, "c");
    assert_eq!(d1.nodes.changed.len(), 1);
    assert_eq!(d1.nodes.changed[0].before.label, "B");
    assert_eq!(d1.nodes.changed[0].after.label, "B2");
    assert_eq!(d2.nodes.changed[0].before.label, "B2");
    assert_eq!(d1.edges.added[0].target, "c");
    assert_eq!(d2.edges.removed[0].target, "c");
}

#[test]
fn edge_kind_distinguishes_edges() {
    let before = Graph { nodes: vec![], edges: vec![edge("a", "b")] };
    let after = Graph {
        nodes: vec![],
        edges: vec![Edge { source: "a".into(), target: "b".into(), kind: EdgeKind::Sequence }],
    };
    let d = compute(&before, &after);
    assert_eq!(d.edges.added.len(), 1);
    assert_eq!(d.edges.removed.len(), 1);
    let k = edge_key(&d.edges.added[0]);
    assert_eq!(k, ("a".to_string(), "b".to_string(), "sequence".to_string()));
}

#[test]
fn duplicate_edges_reported_once() {
    let before = Graph::new();
    let after = Graph { nodes: vec![], edges: vec![edge("a", "b"), edge("a", "b")] };
    let d = compute(&before, &after);
    assert_eq!(d.edges.added.len(), 1);
}
