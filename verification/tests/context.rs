use topo::context::{
    ancestors, children, context_lines, estimate_tokens, find_link_paths, is_cjk,
    line_count, link_candidates, node_status, LinkInfo,
};
use topo::graph::{Edge, EdgeKind, Graph, Metadata, Node, NodeKind};

fn make_node(id: &str, kind: NodeKind, label: &str) -> Node {
    Node { id: id.into(), kind, source: "markdown".into(), label: label.into(), metadata: None }
}

fn make_task(id: &str, label: &str, status: &str) -> Node {
    Node {
        id: id.into(),
        kind: NodeKind::Task,
        source: "markdown".into(),
        label: label.into(),
        metadata: Some(Metadata { level: None, status: Some(status.into()), stable_id: None }),
    }
}

fn contains(a: &str, b: &str) -> Edge {
    Edge { source: a.into(), target: b.into(), kind: EdgeKind::Contains }
}

/// The existence of each candidate path, read from the given set of files.
fn exists_flags(candidates: &[String], files: &[&str]) -> Vec<bool> {
    candidates.iter().map(|c| files.contains(&c.as_str())).collect()
}

#[test]
fn ancestors_returns_chain_root_first() {
    let graph = Graph {
        nodes: vec![
            make_node("root", NodeKind::Section, "root"),
            make_node("root#a", NodeKind::Section, "A"),
            make_node("root#a#b", NodeKind::Section, "B"),
        ],
        edges: vec![contains("root", "root#a"), contains("root#a", "root#a#b")],
    };
    let chain = ancestors("root#a#b", &graph);
    assert_eq!(chain.len(), 2);
    assert_eq!(chain[0].id, "root");
    assert_eq!(chain[1].id, "root#a");
}

#[test]
fn ancestors_empty_for_root() {
    let graph = Graph { nodes: vec![make_node("root", NodeKind::Section, "root")], edges: vec![] };
    assert!(ancestors("root", &graph).is_empty());
}

#[test]
fn children_returns_direct_children() {
    let graph = Graph {
        nodes: vec![
            make_task("p", "Parent", "todo"),
            make_task("c1", "Child 1", "done"),
            make_task("c2", "Child 2", "todo"),
        ],
        edges: vec![contains("p", "c1"), contains("p", "c2")],
    };
    let kids = children("p", &graph);
    assert_eq!(kids.len(), 2);
}

#[test]
fn find_link_paths_returns_empty_when_no_match() {
    let graph = Graph { nodes: vec![], edges: vec![] };
    let cands = link_candidates("foo#bar", &graph);
    let flags = exists_flags(&cands, &[]);
    assert!(find_link_paths("foo#bar", &graph, &flags).is_empty());
}

#[test]
fn find_link_paths_convention_fallback() {
    let graph = Graph { nodes: vec![], edges: vec![] };
    let cands = link_candidates("ROADMAP.md#scan", &graph);
    let flags = exists_flags(&cands, &["roadmap/scan.md"]);
    let paths = find_link_paths("ROADMAP.md#scan", &graph, &flags);
    assert_eq!(paths, vec!["roadmap/scan.md"]);
}

#[test]
fn find_link_paths_from_reference_edges() {
    let graph = Graph {
        nodes: vec![make_node("R.md#task", NodeKind::Task, "Task")],
        edges: vec![
            Edge {
                source: "R.md#task".into(),
                target: ".config/skills/CONV.md#conv".into(),
                kind: EdgeKind::References,
            },
            Edge { source: "R.md#task".into(), target: "notes.md".into(), kind: EdgeKind::References },
        ],
    };
    let cands = link_candidates("R.md#task", &graph);
    let flags = exists_flags(&cands, &[".config/skills/CONV.md", "notes.md"]);
    let paths = find_link_paths("R.md#task", &graph, &flags);
    assert_eq!(paths, vec![".config/skills/CONV.md".to_string(), "notes.md".to_string()]);
}

#[test]
fn fallback_tries_slugified_name() {
    let graph = Graph { nodes: vec![], edges: vec![] };
    let cands = link_candidates("R.md#Big Task", &graph);
    assert_eq!(cands, vec!["roadmap/Big Task.md".to_string(), "roadmap/big-task.md".to_string()]);
    let flags = exists_flags(&cands, &["roadmap/big-task.md"]);
    assert_eq!(find_link_paths("R.md#Big Task", &graph, &flags), vec!["roadmap/big-task.md"]);
}

#[test]
fn missing_reference_files_fall_back() {
    let graph = Graph {
        nodes: vec![],
        edges: vec![Edge { source: "R.md#t".into(), target: "gone.md".into(), kind: EdgeKind::References }],
    };
    let cands = link_candidates("R.md#t", &graph);
    let flags = exists_flags(&cands, &["roadmap/t.md"]);
    assert_eq!(find_link_paths("R.md#t", &graph, &flags), vec!["roadmap/t.md"]);
}

#[test]
fn token_estimates() {
    assert_eq!(estimate_tokens(""), 0);
    assert_eq!(estimate_tokens("abcdefghijklmnop"), 4);
    assert_eq!(estimate_tokens("hello big world"), 4);
    assert_eq!(estimate_tokens("a"), 1);
    assert_eq!(estimate_tokens("漢字"), 2);
    assert_eq!(estimate_tokens("a漢字 b"), 3);
    assert_eq!(estimate_tokens("éé"), 1);
    assert!(is_cjk('漢'));
    assert!(!is_cjk('a'));
}

#[test]
fn counts_lines_like_str_lines() {
    assert_eq!(line_count(""), 0);
    assert_eq!(line_count("a"), 1);
    assert_eq!(line_count("a\nb\n"), 2);
    assert_eq!(line_count("a\n\nb"), 3);
}

#[test]
fn status_of_nodes() {
    assert_eq!(node_status(&make_task("t", "T", "done")), Some("done".to_string()));
    assert_eq!(node_status(&make_node("s", NodeKind::Section, "S")), None);
}

#[test]
fn context_report_lines() {
    let node = make_task("p", "Parent", "todo");
    let anc = vec![make_node("f", NodeKind::File, "F"), make_node("s", NodeKind::Section, "S")];
    let kids = vec![make_task("c1", "One", "done"), make_task("c2", "Two", "todo")];
    let links = vec![LinkInfo { path: "roadmap/p.md".into(), lines: 3, tokens: 12 }];
    let out = context_lines(&node, &anc, &kids, &links);
    assert_eq!(
        out,
        vec![
            "# Parent",
            "task | todo",
            "F > S",
            "",
            "## Subtasks",
            "- [x] One",
            "- [ ] Two",
            "",
            "## Links",
            "  roadmap/p.md (3 lines, ~12 tokens)",
        ]
    );
    let bare = context_lines(&make_node("s", NodeKind::Section, "S"), &vec![], &vec![], &vec![]);
    assert_eq!(bare, vec!["# S", "section | —"]);
}
