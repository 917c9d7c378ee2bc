use topo::graph::{Edge, EdgeKind, Graph, Node, NodeKind};

fn node(id: &str, label: &str) -> Node {
    Node { id: id.into(), kind: NodeKind::Section, source: "markdown".into(), label: label.into(), metadata: None }
}

fn edge(s: &str, t: &str, kind: EdgeKind) -> Edge {
    Edge { source: s.into(), target: t.into(), kind }
}

#[test]
fn sort_orders_nodes_by_id_stably() {
    let mut g = Graph {
        nodes: vec![node("b", "1"), node("a", "2"), node("B", "3"), node("ab", "4"), node("a", "5"), node("é", "6")],
        edges: vec![],
    };
    g.sort();
    let got: Vec<(&str, &str)> = g.nodes.iter().map(|n| (n.id.as_str(), n.label.as_str())).collect();
    assert_eq!(got, vec![("B", "3"), ("a", "2"), ("a", "5"), ("ab", "4"), ("b", "1"), ("é", "6")]);
}

#[test]
fn sort_orders_edges_by_source_target_kind() {
    let mut g = Graph {
        nodes: vec![],
        edges: vec![
            edge("b", "a", EdgeKind::Contains),
            edge("a", "c", EdgeKind::Sequence),
            edge("a", "c", EdgeKind::Contains),
            edge("a", "b", EdgeKind::References),
        ],
    };
    g.sort();
    let got: Vec<(&str, &str, EdgeKind)> =
        g.edges.iter().map(|e| (e.source.as_str(), e.target.as_str(), e.kind)).collect();
    assert_eq!(
        got,
        vec![
            ("a", "b", EdgeKind::References),
            ("a", "c", EdgeKind::Contains),
            ("a", "c", EdgeKind::Sequence),
            ("b", "a", EdgeKind::Contains),
        ]
    );
}

#[test]
fn add_appends_other_graph() {
    let mut g = Graph { nodes: vec![node("a", "A")], edges: vec![] };
    g.add(Graph { nodes: vec![node("b", "B")], edges: vec![edge("a", "b", EdgeKind::Contains)] });
    assert_eq!(g.nodes.len(), 2);
    assert_eq!(g.nodes[1].id, "b");
    assert_eq!(g.edges.len(), 1);
}
