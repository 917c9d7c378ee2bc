use std::collections::HashSet;

use topo::graph::{Edge, EdgeKind, Graph, Metadata, Node, NodeKind};
use topo::query::{execute, kind_str, node_field_value, Filter, FilterOp, Traversal};

fn meta_status(s: &str) -> Option<Metadata> {
    Some(Metadata { level: None, status: Some(s.to_string()), stable_id: None })
}

fn node(id: &str, kind: NodeKind, source: &str, label: &str, metadata: Option<Metadata>) -> Node {
    Node { id: id.into(), kind, source: source.into(), label: label.into(), metadata }
}

fn edge(s: &str, t: &str, kind: EdgeKind) -> Edge {
    Edge { source: s.into(), target: t.into(), kind }
}

fn test_graph() -> Graph {
    let nodes = vec![
        node("root", NodeKind::Section, "markdown", "Root", None),
        node("child1", NodeKind::Task, "markdown", "Scan feature", meta_status("done")),
        node("child2", NodeKind::Task, "markdown", "Query feature", meta_status("todo")),
        node("grandchild", NodeKind::Task, "markdown", "Sub task", meta_status("todo")),
        node("file1", NodeKind::File, "filesystem", "main.rs", None),
    ];
    let edges = vec![
        edge("root", "child1", EdgeKind::Contains),
        edge("root", "child2", EdgeKind::Contains),
        edge("child2", "grandchild", EdgeKind::Contains),
    ];
    Graph { nodes, edges }
}

fn ref_graph() -> Graph {
    let nodes = vec![
        node("a", NodeKind::Section, "markdown", "A", None),
        node("b", NodeKind::File, "filesystem", "B", None),
        node("c", NodeKind::Section, "markdown", "C", None),
    ];
    let edges = vec![
        edge("a", "b", EdgeKind::References),
        edge("a", "c", EdgeKind::References),
        edge("c", "b", EdgeKind::References),
        edge("a", "c", EdgeKind::Contains),
    ];
    Graph { nodes, edges }
}

fn id_set(g: &Graph) -> HashSet<String> {
    g.nodes.iter().map(|n| n.id.clone()).collect()
}

#[test]
fn filter_parse_eq() {
    let f = Filter::parse("type=task").unwrap();
    assert!(matches!(f.op, FilterOp::Eq));
    assert_eq!(f.field, "type");
    assert_eq!(f.value, "task");
}

#[test]
fn filter_parse_contains() {
    let f = Filter::parse("label~scan").unwrap();
    assert!(matches!(f.op, FilterOp::Contains));
    assert_eq!(f.field, "label");
    assert_eq!(f.value, "scan");
}

#[test]
fn filter_by_type() {
    let g = test_graph();
    let filters = vec![Filter::parse("type=task").unwrap()];
    let result = execute(&g, &Traversal::All, &filters);
    assert_eq!(result.nodes.len(), 3);
    assert!(result.nodes.iter().all(|n| matches!(n.kind, NodeKind::Task)));
}

#[test]
fn filter_by_metadata() {
    let g = test_graph();
    let filters = vec![Filter::parse("status=todo").unwrap()];
    let result = execute(&g, &Traversal::All, &filters);
    assert_eq!(result.nodes.len(), 2);
}

#[test]
fn filter_label_contains() {
    let g = test_graph();
    let filters = vec![Filter::parse("label~scan").unwrap()];
    let result = execute(&g, &Traversal::All, &filters);
    assert_eq!(result.nodes.len(), 1);
    assert_eq!(result.nodes[0].id, "child1");
}

#[test]
fn traversal_roots() {
    let g = test_graph();
    let result = execute(&g, &Traversal::Roots, &[]);
    let ids = id_set(&result);
    assert!(ids.contains("root"));
    assert!(ids.contains("file1"));
    assert_eq!(ids.len(), 2);
}

#[test]
fn traversal_children() {
    let g = test_graph();
    let result = execute(&g, &Traversal::Children("root".into()), &[]);
    let ids: Vec<&str> = result.nodes.iter().map(|n| n.id.as_str()).collect();
    assert!(ids.contains(&"child1"));
    assert!(ids.contains(&"child2"));
    assert_eq!(ids.len(), 2);
}

#[test]
fn traversal_descendants() {
    let g = test_graph();
    let result = execute(&g, &Traversal::Descendants("root".into()), &[]);
    assert_eq!(result.nodes.len(), 3);
}

#[test]
fn traversal_ancestors() {
    let g = test_graph();
    let result = execute(&g, &Traversal::Ancestors("grandchild".into()), &[]);
    let ids = id_set(&result);
    assert!(ids.contains("child2"));
    assert!(ids.contains("root"));
}

#[test]
fn combined_traversal_and_filter() {
    let g = test_graph();
    let filters = vec![Filter::parse("status=todo").unwrap()];
    let result = execute(&g, &Traversal::Descendants("root".into()), &filters);
    assert_eq!(result.nodes.len(), 2);
}

#[test]
fn edges_pruned() {
    let g = test_graph();
    let filters = vec![Filter::parse("type=task").unwrap()];
    let result = execute(&g, &Traversal::All, &filters);
    assert_eq!(result.edges.len(), 1);
    assert_eq!(result.edges[0].source, "child2");
}

#[test]
fn traversal_references() {
    let g = ref_graph();
    let result = execute(&g, &Traversal::References("a".into()), &[]);
    let ids = id_set(&result);
    assert!(ids.contains("b"));
    assert!(ids.contains("c"));
    assert_eq!(ids.len(), 2);
}

#[test]
fn traversal_referenced_by() {
    let g = ref_graph();
    let result = execute(&g, &Traversal::ReferencedBy("b".into()), &[]);
    let ids = id_set(&result);
    assert!(ids.contains("a"));
    assert!(ids.contains("c"));
    assert_eq!(ids.len(), 2);
}

#[test]
fn references_with_filter() {
    let g = ref_graph();
    let filters = vec![Filter::parse("type=file").unwrap()];
    let result = execute(&g, &Traversal::References("a".into()), &filters);
    assert_eq!(result.nodes.len(), 1);
    assert_eq!(result.nodes[0].id, "b");
}

#[test]
fn filter_parse_without_operator_is_none() {
    assert!(Filter::parse("typetask").is_none());
}

#[test]
fn filter_parse_tilde_wins_over_equals() {
    let f = Filter::parse("label~a=b").unwrap();
    assert!(matches!(f.op, FilterOp::Contains));
    assert_eq!(f.field, "label");
    assert_eq!(f.value, "a=b");
}

#[test]
fn contains_filter_ignores_ascii_case() {
    let g = test_graph();
    let filters = vec![Filter::parse("label~QUERY").unwrap()];
    let result = execute(&g, &Traversal::All, &filters);
    assert_eq!(result.nodes.len(), 1);
    assert_eq!(result.nodes[0].id, "child2");
}

#[test]
fn unknown_field_never_matches() {
    let g = test_graph();
    let filters = vec![Filter::parse("priority=high").unwrap()];
    assert!(execute(&g, &Traversal::All, &filters).nodes.is_empty());
}

#[test]
fn field_values_of_a_node() {
    let n = node("x#y", NodeKind::Task, "markdown", "Lbl", meta_status("done"));
    assert_eq!(node_field_value(&n, "type"), Some("task".to_string()));
    assert_eq!(node_field_value(&n, "status"), Some("done".to_string()));
    assert_eq!(node_field_value(&n, "id"), Some("x#y".to_string()));
    assert_eq!(node_field_value(&n, "stable_id"), None);
    assert_eq!(kind_str(&NodeKind::Directory), "directory");
}

#[test]
fn next_follows_sequence_edges() {
    let mut g = test_graph();
    g.edges.push(edge("child1", "child2", EdgeKind::Sequence));
    let result = execute(&g, &Traversal::Next("child1".into()), &[]);
    assert_eq!(result.nodes.len(), 1);
    assert_eq!(result.nodes[0].id, "child2");
}

#[test]
fn descendants_and_ancestors_mirror_each_other() {
    let g = test_graph();
    let down = execute(&g, &Traversal::Descendants("root".into()), &[]);
    for n in &down.nodes {
        let up = execute(&g, &Traversal::Ancestors(n.id.clone()), &[]);
        assert!(id_set(&up).contains("root"));
    }
    let up = execute(&g, &Traversal::Ancestors("child1".into()), &[]);
    assert_eq!(id_set(&up), ["root".to_string()].into_iter().collect());
}

#[test]
fn descendants_terminate_on_a_cycle() {
    let mut g = test_graph();
    g.edges.push(edge("grandchild", "root", EdgeKind::Contains));
    let result = execute(&g, &Traversal::Descendants("root".into()), &[]);
    assert_eq!(result.nodes.len(), 4);
}

#[test]
fn filter_by_section_number() {
    let task = |id: &str, sid: &str| Node {
        id: id.into(),
        kind: NodeKind::Task,
        source: "markdown".into(),
        label: id.into(),
        metadata: Some(Metadata { level: None, status: Some("todo".into()), stable_id: Some(sid.into()) }),
    };
    let g = Graph {
        nodes: vec![
            Node { id: "R.md#core".into(), kind: NodeKind::Section, source: "markdown".into(), label: "2. Core".into(), metadata: None },
            task("R.md#a", "2.1"),
            task("R.md#b", "1.2"),
            task("R.md#c", "2.10.1"),
        ],
        edges: vec![],
    };
    let f = vec![Filter::parse("section=2").unwrap()];
    let r = execute(&g, &Traversal::All, &f);
    let ids: Vec<&str> = r.nodes.iter().map(|n| n.id.as_str()).collect();
    assert_eq!(ids, vec!["R.md#core", "R.md#a", "R.md#c"]);
    assert_eq!(node_field_value(&g.nodes[3], "section"), Some("2".to_string()));
}
