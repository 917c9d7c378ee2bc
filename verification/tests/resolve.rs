use topo::graph::{Graph, Metadata, Node, NodeKind};
use topo::resolve::{resolve, Criterion, ResolveError};

fn make_graph(ids: &[&str]) -> Graph {
    let nodes = ids
        .iter()
        .map(|id| Node {
            id: id.to_string(),
            kind: NodeKind::Section,
            source: "test".into(),
            label: id.to_string(),
            metadata: None,
        })
        .collect();
    Graph { nodes, edges: vec![] }
}

fn make_graph_with_stable_ids(entries: &[(&str, Option<&str>)]) -> Graph {
    let nodes = entries
        .iter()
        .map(|(id, stable_id)| Node {
            id: id.to_string(),
            kind: NodeKind::Task,
            source: "test".into(),
            label: id.to_string(),
            metadata: stable_id.map(|sid| Metadata { level: None, status: None, stable_id: Some(sid.to_string()) }),
        })
        .collect();
    Graph { nodes, edges: vec![] }
}

#[test]
fn resolve_exact_match() {
    let g = make_graph(&["foo#bar", "foo#baz"]);
    assert_eq!(resolve(&g, "foo#bar").ok().unwrap(), "foo#bar");
}

#[test]
fn resolve_prefix() {
    let g = make_graph(&["ROADMAP.md#unique-task", "src/main.rs"]);
    assert_eq!(resolve(&g, "ROADMAP.md#unique").ok().unwrap(), "ROADMAP.md#unique-task");
}

#[test]
fn resolve_ambiguous_prefix() {
    let g = make_graph(&["ROADMAP.md#stage-1", "ROADMAP.md#stage-2"]);
    let err = resolve(&g, "ROADMAP.md#stage-").err().unwrap();
    assert!(err.message().contains("ambiguous prefix"));
    assert!(err.message().contains("ROADMAP.md#stage-1"));
    assert!(err.message().contains("ROADMAP.md#stage-2"));
}

#[test]
fn resolve_no_match() {
    let g = make_graph(&["foo#bar"]);
    let err = resolve(&g, "nonexistent").err().unwrap();
    assert!(err.message().contains("no node matching"));
}

#[test]
fn resolve_exact_over_prefix() {
    let g = make_graph(&["foo", "foo#bar"]);
    assert_eq!(resolve(&g, "foo").ok().unwrap(), "foo");
}

#[test]
fn resolve_slug_exact() {
    let g = make_graph(&["ROADMAP.md#scan-project-files-into-graph-json"]);
    assert_eq!(
        resolve(&g, "scan-project-files-into-graph-json").ok().unwrap(),
        "ROADMAP.md#scan-project-files-into-graph-json"
    );
}

#[test]
fn resolve_slug_prefix() {
    let g = make_graph(&["ROADMAP.md#stage-1-graph-foundation"]);
    assert_eq!(resolve(&g, "stage-1").ok().unwrap(), "ROADMAP.md#stage-1-graph-foundation");
}

#[test]
fn resolve_numeric_id() {
    let g = make_graph_with_stable_ids(&[
        ("ROADMAP.md#scan-project-files", Some("1.1")),
        ("ROADMAP.md#stable-id", Some("1.3")),
    ]);
    assert_eq!(resolve(&g, "1.1").ok().unwrap(), "ROADMAP.md#scan-project-files");
    assert_eq!(resolve(&g, "1.3").ok().unwrap(), "ROADMAP.md#stable-id");
}

#[test]
fn resolve_numeric_id_nested() {
    let g = make_graph_with_stable_ids(&[
        ("ROADMAP.md#parent", Some("1.1")),
        ("ROADMAP.md#child", Some("1.1.1")),
    ]);
    assert_eq!(resolve(&g, "1.1").ok().unwrap(), "ROADMAP.md#parent");
    assert_eq!(resolve(&g, "1.1.1").ok().unwrap(), "ROADMAP.md#child");
}

#[test]
fn resolve_ambiguous_slug_prefix() {
    let g = make_graph(&["ROADMAP.md#stage-1-graph-foundation", "ROADMAP.md#stage-2-query-engine"]);
    let err = resolve(&g, "stage-").err().unwrap();
    assert!(err.message().contains("ambiguous slug prefix"));
    assert!(err.message().contains("stage-1"));
    assert!(err.message().contains("stage-2"));
}

#[test]
fn ambiguous_message_exact_text() {
    let g = make_graph(&["a#x-1", "a#x-2"]);
    let err = resolve(&g, "a#x").err().unwrap();
    assert_eq!(err.message(), "ambiguous prefix 'a#x', matches 2 nodes:\n  a#x-1\n  a#x-2");
    assert!(matches!(err, ResolveError::Ambiguous { criterion: Criterion::Prefix, .. }));
}

#[test]
fn ambiguous_numeric_id_and_slug() {
    let g = make_graph_with_stable_ids(&[("R.md#a", Some("2.1")), ("A.md#a", Some("2.1"))]);
    let err = resolve(&g, "2.1").err().unwrap();
    assert!(err.message().starts_with("ambiguous numeric ID '2.1', matches 2 nodes:"));
    let err2 = resolve(&g, "a").err().unwrap();
    assert!(err2.message().starts_with("ambiguous slug 'a'"));
}

#[test]
fn no_match_message_exact_text() {
    let g = make_graph(&[]);
    let err = resolve(&g, "q").err().unwrap();
    assert_eq!(err.message(), "no node matching 'q'");
}
