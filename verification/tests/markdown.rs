use topo::graph::{EdgeKind, Graph, Node, NodeKind};
use topo::scan::markdown::{
    extract_custom_marker, extract_numeric_id, looks_like_path, make_id, parse_events, slug_of_flags,
    parse_markdown, slugify, MdEvent, RawLink, SlugCounts,
};

fn parse(md: &str) -> Graph {
    let mut g = Graph::new();
    let mut links = Vec::new();
    parse_markdown("test.md", md, &mut g, &mut links);
    g
}

fn parse_links(md: &str) -> Vec<RawLink> {
    let mut g = Graph::new();
    let mut links = Vec::new();
    parse_markdown("test.md", md, &mut g, &mut links);
    links
}

fn node_ids(g: &Graph, kind: NodeKind) -> Vec<&str> {
    g.nodes.iter().filter(|n| n.kind == kind).map(|n| n.id.as_str()).collect()
}

fn edge_pairs(g: &Graph) -> Vec<(&str, &str)> {
    g.edges.iter().map(|e| (e.source.as_str(), e.target.as_str())).collect()
}

fn seq_edges(g: &Graph) -> Vec<(&str, &str)> {
    g.edges
        .iter()
        .filter(|e| e.kind == EdgeKind::Sequence)
        .map(|e| (e.source.as_str(), e.target.as_str()))
        .collect()
}

fn tasks(g: &Graph) -> Vec<&Node> {
    g.nodes.iter().filter(|n| n.kind == NodeKind::Task).collect()
}

fn status(n: &Node) -> Option<&str> {
    n.metadata.as_ref().unwrap().status.as_deref()
}

fn stable_id(n: &Node) -> Option<&str> {
    n.metadata.as_ref().unwrap().stable_id.as_deref()
}

#[test]
fn heading_hierarchy() {
    let g = parse("# A\n## B\n### C\n");
    let ids = node_ids(&g, NodeKind::Section);
    assert_eq!(ids, vec!["test.md#a", "test.md#b", "test.md#c"]);
    let edges = edge_pairs(&g);
    assert!(edges.contains(&("test.md", "test.md#a")));
    assert!(edges.contains(&("test.md#a", "test.md#b")));
    assert!(edges.contains(&("test.md#b", "test.md#c")));
}

#[test]
fn flat_tasks() {
    let g = parse("# Tasks\n- [ ] Alpha\n- [x] Beta\n");
    let ids = node_ids(&g, NodeKind::Task);
    assert_eq!(ids, vec!["test.md#alpha", "test.md#beta"]);
    let edges = edge_pairs(&g);
    assert!(edges.contains(&("test.md#tasks", "test.md#alpha")));
    assert!(edges.contains(&("test.md#tasks", "test.md#beta")));
    let beta = g.nodes.iter().find(|n| n.id == "test.md#beta").unwrap();
    assert_eq!(status(beta), Some("done"));
}

#[test]
fn nested_tasks() {
    let g = parse("# S\n- [ ] Parent\n  - [ ] Child\n");
    let ids = node_ids(&g, NodeKind::Task);
    assert!(ids.contains(&"test.md#parent"));
    assert!(ids.contains(&"test.md#child"));
    let edges = edge_pairs(&g);
    assert!(edges.contains(&("test.md#parent", "test.md#child")));
}

#[test]
fn slug_dedup() {
    let g = parse("# S\n- [ ] Dup\n- [ ] Dup\n");
    let ids = node_ids(&g, NodeKind::Task);
    assert_eq!(ids.len(), 2);
    assert_eq!(ids[0], "test.md#dup");
    assert_eq!(ids[1], "test.md#dup-2");
}

#[test]
fn code_block_skipping() {
    let md = "# S\n- [ ] Real task\n```\n- [ ] Not a task\n```\n";
    let g = parse(md);
    let t = node_ids(&g, NodeKind::Task);
    assert_eq!(t.len(), 1);
    assert_eq!(g.nodes.iter().find(|n| n.kind == NodeKind::Task).unwrap().label, "Real task");
}

#[test]
fn numeric_id_extraction() {
    let g = parse("# S\n- [ ] 1.1 Scan project\n- [x] 1.2 Query done\n");
    let t = tasks(&g);
    assert_eq!(t.len(), 2);
    assert_eq!(t[0].label, "Scan project");
    assert_eq!(t[1].label, "Query done");
    assert_eq!(stable_id(t[0]), Some("1.1"));
    assert_eq!(stable_id(t[1]), Some("1.2"));
    assert_eq!(t[0].id, "test.md#scan-project");
    assert_eq!(t[1].id, "test.md#query-done");
}

#[test]
fn numeric_id_nested() {
    let g = parse("# S\n- [ ] 1.1 Parent\n  - [ ] 1.1.1 Child\n");
    let t = tasks(&g);
    let child = t.iter().find(|n| n.label == "Child").unwrap();
    let parent = t.iter().find(|n| n.label == "Parent").unwrap();
    assert_eq!(stable_id(child), Some("1.1.1"));
    assert_eq!(stable_id(parent), Some("1.1"));
}

#[test]
fn no_numeric_id_when_absent() {
    let g = parse("# S\n- [ ] Just a normal task\n");
    let task = g.nodes.iter().find(|n| n.kind == NodeKind::Task).unwrap();
    assert_eq!(task.label, "Just a normal task");
    assert!(stable_id(task).is_none());
}

#[test]
fn custom_marker_in_progress() {
    let g = parse("# S\n- [-] 1.1 In progress task\n");
    let t = tasks(&g);
    assert_eq!(t.len(), 1);
    assert_eq!(t[0].label, "In progress task");
    assert_eq!(status(t[0]), Some("in-progress"));
    assert_eq!(stable_id(t[0]), Some("1.1"));
}

#[test]
fn custom_marker_dropped() {
    let g = parse("# S\n- [~] 2.1 Dropped task\n");
    let t = tasks(&g);
    assert_eq!(t.len(), 1);
    assert_eq!(t[0].label, "Dropped task");
    assert_eq!(status(t[0]), Some("dropped"));
}

#[test]
fn deterministic_output() {
    let md = "# B\n## A\n- [ ] Z\n- [ ] Y\n# C\n- [ ] X\n";
    let a = format!("{:?}", parse(md));
    let b = format!("{:?}", parse(md));
    assert_eq!(a, b);
}

#[test]
fn link_extraction_path() {
    let links = parse_links("# S\nSee [readme](README.md) for details.\n");
    assert_eq!(links.len(), 1);
    assert_eq!(links[0].target_url, "README.md");
    assert_eq!(links[0].source_node, "test.md#s");
    assert_eq!(links[0].source_file, "test.md");
}

#[test]
fn link_extraction_anchor() {
    let links = parse_links("# S\nSee [section](#other-section) below.\n");
    assert_eq!(links.len(), 1);
    assert_eq!(links[0].target_url, "#other-section");
}

#[test]
fn link_extraction_inline_code_path() {
    let links = parse_links("# S\nCheck `src/main.rs` for entry point.\n");
    assert_eq!(links.len(), 1);
    assert_eq!(links[0].target_url, "src/main.rs");
}

#[test]
fn link_extraction_skips_code_block() {
    let md = "# S\n```\n[not a link](path.md)\n`src/file.rs`\n```\n";
    let links = parse_links(md);
    assert!(links.is_empty());
}

#[test]
fn link_extraction_skips_inline_code_in_heading() {
    let links = parse_links("# The `main.rs` module\nSome text.\n");
    assert!(links.is_empty());
}

#[test]
fn link_extraction_multiple() {
    let md = "# S\n[a](one.md) and [b](two.md)\n";
    let links = parse_links(md);
    assert_eq!(links.len(), 2);
    assert_eq!(links[0].target_url, "one.md");
    assert_eq!(links[1].target_url, "two.md");
}

#[test]
fn sequence_edges_sibling_tasks() {
    let g = parse("# S\n- [ ] A\n- [ ] B\n- [ ] C\n");
    let seq = seq_edges(&g);
    assert_eq!(seq.len(), 2);
    assert!(seq.contains(&("test.md#a", "test.md#b")));
    assert!(seq.contains(&("test.md#b", "test.md#c")));
}

#[test]
fn sequence_edges_sibling_sections() {
    let g = parse("# S\n## X\n## Y\n");
    let seq = seq_edges(&g);
    assert_eq!(seq.len(), 1);
    assert!(seq.contains(&("test.md#x", "test.md#y")));
}

#[test]
fn sequence_edges_nested_no_cross_level() {
    let g = parse("# S\n- [ ] A\n  - [ ] A1\n  - [ ] A2\n- [ ] B\n");
    let seq = seq_edges(&g);
    assert!(seq.contains(&("test.md#a", "test.md#b")));
    assert!(seq.contains(&("test.md#a1", "test.md#a2")));
    assert_eq!(seq.len(), 2);
}

#[test]
fn task_link_source_is_task_node() {
    let md = "# S\n- [ ] My task — see [details](roadmap/detail.md)\n";
    let links = parse_links(md);
    assert_eq!(links.len(), 1);
    assert_eq!(links[0].target_url, "roadmap/detail.md");
    assert_eq!(links[0].source_node, "test.md#my-task-see-details");
}

#[test]
fn task_code_path_source_is_task_node() {
    let md = "# S\n- [ ] Scan files — `src/scan/mod.rs`\n";
    let links = parse_links(md);
    assert_eq!(links.len(), 1);
    assert_eq!(links[0].target_url, "src/scan/mod.rs");
    assert_eq!(links[0].source_node, "test.md#scan-files-src-scan-mod-rs");
}

#[test]
fn custom_marker_link_source_is_task_node() {
    let md = "# S\n- [~] 3.7 Dropped — see [details](roadmap/detail.md)\n";
    let links = parse_links(md);
    assert_eq!(links.len(), 1);
    assert_eq!(links[0].target_url, "roadmap/detail.md");
    assert_eq!(links[0].source_node, "test.md#dropped-see-details");
}

#[test]
fn slugify_examples() {
    assert_eq!(slugify("Hello World"), "hello-world");
    assert_eq!(slugify("  Stage 1: Graph -- Foundation!  "), "stage-1-graph-foundation");
    assert_eq!(slugify("ÄBC"), "äbc");
    assert_eq!(slugify("---"), "");
}

#[test]
fn numeric_id_prefix_split() {
    assert_eq!(extract_numeric_id("1.2.3 Parse files"), Some(("1.2.3", "Parse files")));
    assert_eq!(extract_numeric_id("12.7 Thing"), Some(("12.7", "Thing")));
    assert_eq!(extract_numeric_id("1 Thing"), None);
    assert_eq!(extract_numeric_id("1.x Thing"), None);
    assert_eq!(extract_numeric_id("Thing 1.1"), None);
}

#[test]
fn custom_marker_split() {
    let text: Vec<char> = "  [-]   rest of it".chars().collect();
    let (m, rest) = extract_custom_marker(&text).unwrap();
    assert_eq!(m, '-');
    assert_eq!(rest.iter().collect::<String>(), "rest of it");
    let plain: Vec<char> = "[x] done".chars().collect();
    assert!(extract_custom_marker(&plain).is_none());
}

#[test]
fn path_detection() {
    let c = |s: &str| s.chars().collect::<Vec<char>>();
    assert!(looks_like_path(&c("src/main.rs")));
    assert!(looks_like_path(&c("Cargo.toml")));
    assert!(!looks_like_path(&c("main")));
    assert!(!looks_like_path(&c("foo.bar")));
}

#[test]
fn repeated_slugs_get_suffixes() {
    let mut counts = SlugCounts::new();
    assert_eq!(make_id("f.md", "x", &mut counts), "f.md#x");
    assert_eq!(make_id("f.md", "y", &mut counts), "f.md#y");
    assert_eq!(make_id("f.md", "x", &mut counts), "f.md#x-2");
    assert_eq!(make_id("f.md", "x", &mut counts), "f.md#x-3");
}

#[test]
fn events_build_task_under_heading() {
    let events = vec![
        MdEvent::HeadingStart(2),
        MdEvent::Text("Plan".to_string()),
        MdEvent::HeadingEnd,
        MdEvent::ListStart,
        MdEvent::ItemStart,
        MdEvent::TaskMarker(true),
        MdEvent::Text("Ship it".to_string()),
        MdEvent::ItemEnd,
        MdEvent::ListEnd,
    ];
    let mut g = Graph::new();
    let mut links = Vec::new();
    parse_events("p.md", &events, &mut g, &mut links);
    assert_eq!(node_ids(&g, NodeKind::Section), vec!["p.md#plan"]);
    assert_eq!(node_ids(&g, NodeKind::Task), vec!["p.md#ship-it"]);
    let t = tasks(&g);
    assert_eq!(status(t[0]), Some("done"));
    assert!(edge_pairs(&g).contains(&("p.md#plan", "p.md#ship-it")));
    assert!(links.is_empty());
}

#[test]
fn marked_item_description_is_not_part_of_label() {
    let g = parse("# S\n- [-] 6.15 测试\n\n  测试\n");
    let t = tasks(&g);
    assert_eq!(t.len(), 1);
    assert_eq!(t[0].label, "测试");
    assert_eq!(status(t[0]), Some("in-progress"));
    assert_eq!(stable_id(t[0]), Some("6.15"));
}

#[test]
fn task_description_joins_label() {
    let g = parse("# S\n- [ ] 1.3 New thing\n\n  Details here\n- [ ] 1.4 Next\n");
    let t = tasks(&g);
    assert_eq!(t.len(), 2);
    assert_eq!(t[0].label, "New thingDetails here");
    assert_eq!(t[0].id, "test.md#new-thingdetails-here");
    assert_eq!(t[1].label, "Next");
}

#[test]
fn slug_from_given_flags() {
    let c = |s: &str| s.chars().collect::<Vec<char>>();
    assert_eq!(slug_of_flags(&c("a b!c"), &[true, false, true, false, true]), "a-b-c");
    assert_eq!(slug_of_flags(&c("ab  "), &[true, true, false, false]), "ab");
    assert_eq!(slug_of_flags(&c("--x"), &[false, false, true]), "x");
    assert_eq!(slug_of_flags(&c("x-y"), &[true, true, true]), "x-y");
}
