use topo::graph::{EdgeKind, Graph, NodeKind};
use topo::scan::directory::{file_id, DirectoryScanner};
use topo::scan::markdown::{MarkdownScanner, RawLink};
use topo::scan::{
    check_id_conflicts, link_path, normalize_path, resolve_references, should_scan,
};

fn files(list: &[(&str, &str)]) -> Vec<(String, String)> {
    list.iter().map(|(a, b)| (a.to_string(), b.to_string())).collect()
}

fn scan_files(input: &Vec<(String, String)>) -> (Graph, Vec<RawLink>) {
    let mut links = Vec::new();
    let g = MarkdownScanner.scan_with_links(input, &mut links);
    (g, links)
}

fn link(node: &str, url: &str, file: &str) -> RawLink {
    RawLink { source_node: node.into(), target_url: url.into(), source_file: file.into() }
}

fn refs(g: &Graph) -> Vec<(&str, &str)> {
    g.edges
        .iter()
        .filter(|e| e.kind == EdgeKind::References)
        .map(|e| (e.source.as_str(), e.target.as_str()))
        .collect()
}

#[test]
fn normalizes_paths() {
    assert_eq!(normalize_path("a/./b/../c.md"), "a/c.md");
    assert_eq!(normalize_path("../x//y"), "x/y");
    assert_eq!(normalize_path("docs/"), "docs");
    let once = normalize_path("a/../../b/./c");
    assert_eq!(normalize_path(&once), once);
}

#[test]
fn link_paths_of_links() {
    assert_eq!(link_path(&link("d/f.md#s", "../g.md#top", "d/f.md")), Some("g.md".to_string()));
    assert_eq!(link_path(&link("f.md#s", "x/y.md", "f.md")), Some("x/y.md".to_string()));
    assert_eq!(link_path(&link("f.md#s", "#anchor", "f.md")), None);
    assert_eq!(link_path(&link("f.md#s", "https://example.com/a.md", "f.md")), None);
}

#[test]
fn scans_files_and_resolves_links() {
    let input = files(&[
        ("ROADMAP.md", "# Roadmap\n## Work\n- [ ] Do it — see [plan](roadmap/plan.md)\n\nSee [below](#later).\n## Later\n"),
        ("roadmap/plan.md", "# Plan\n## Steps\n"),
    ]);
    let (mut g, links) = scan_files(&input);
    assert_eq!(links.len(), 2);
    assert_eq!(g.nodes.iter().filter(|n| n.kind == NodeKind::Section).count(), 5);
    let paths: Vec<Option<String>> = links.iter().map(|l| link_path(l)).collect();
    assert_eq!(paths, vec![Some("roadmap/plan.md".to_string()), None]);
    let n = g.nodes.len();
    resolve_references(&mut g, &links, &paths);
    assert_eq!(g.nodes.len(), n);
    assert_eq!(
        refs(&g),
        vec![
            ("ROADMAP.md#do-it-see-plan", "roadmap/plan.md#plan"),
            ("ROADMAP.md#work", "ROADMAP.md#later"),
        ]
    );
}

#[test]
fn unresolved_links_add_nothing() {
    let (mut g, _) = scan_files(&files(&[("A.md", "# A\n")]));
    let links = vec![link("A.md#a", "missing.md", "A.md"), link("A.md#a", "http://x", "A.md")];
    let paths = vec![Some("missing.md".to_string()), None];
    let before = g.edges.len();
    resolve_references(&mut g, &links, &paths);
    assert_eq!(g.edges.len(), before);
}

#[test]
fn file_system_path_is_used() {
    let (mut g, _) = scan_files(&files(&[("A.md", "# A\n"), ("real/B.md", "# B\n")]));
    let links = vec![link("A.md#a", "alias/B.md", "A.md")];
    let paths = vec![Some("real/B.md".to_string())];
    resolve_references(&mut g, &links, &paths);
    assert_eq!(refs(&g), vec![("A.md#a", "real/B.md#b")]);
}

#[test]
fn conflicting_ids_between_roadmap_and_archive() {
    let (g, _) = scan_files(&files(&[
        ("ROADMAP.md", "## S\n- [ ] 1.1 A\n- [ ] 1.2 B\n- [ ] 1.1 C\n"),
        ("ARCHIVE.md", "## S\n- [x] 1.1 Old\n- [x] 1.3 Other\n"),
    ]));
    assert_eq!(check_id_conflicts(&g), vec!["1.1".to_string()]);
    let (g2, _) = scan_files(&files(&[("ROADMAP.md", "- [ ] 1.1 A\n")]));
    assert!(check_id_conflicts(&g2).is_empty());
}

#[test]
fn which_files_are_scanned() {
    assert!(should_scan("docs/a.md", true, false));
    assert!(!should_scan("docs/a.md", true, true));
    assert!(should_scan("ROADMAP.md", true, true));
    assert!(should_scan("roadmap/x.md", true, true));
    assert!(!should_scan("src/main.rs", false, false));
}

#[test]
fn directory_tree_graph() {
    let entries = vec![
        (String::new(), true),
        ("src".to_string(), true),
        ("src/main.rs".to_string(), false),
        ("README.md".to_string(), false),
    ];
    let g = DirectoryScanner.scan(&entries, "proj");
    let ids: Vec<&str> = g.nodes.iter().map(|n| n.id.as_str()).collect();
    assert_eq!(ids, vec![".", "src", "src/main.rs", "README.md"]);
    assert_eq!(g.nodes[0].label, "proj");
    assert_eq!(g.nodes[2].label, "main.rs");
    assert_eq!(g.nodes[1].kind, NodeKind::Directory);
    assert_eq!(g.nodes[3].kind, NodeKind::File);
    let edges: Vec<(&str, &str)> = g.edges.iter().map(|e| (e.source.as_str(), e.target.as_str())).collect();
    assert_eq!(edges, vec![(".", "src"), ("src", "src/main.rs"), (".", "README.md")]);
}

#[test]
fn scanning_appends_to_existing_links() {
    let mut links = vec![link("x", "y.md", "x.md")];
    let g = MarkdownScanner.scan_with_links(&files(&[("N.md", "# Hello\n- [ ] Do [it](a.md)\n")]), &mut links);
    assert_eq!(links.len(), 2);
    assert_eq!(links[1].source_node, "N.md#do-it");
    assert!(g.nodes.iter().all(|n| n.id.starts_with("N.md")));
}

#[test]
fn file_ids_of_scanned_files() {
    assert_eq!(file_id("docs\\a.md", "proj"), "docs/a.md");
    assert_eq!(file_id("ROADMAP.md", "proj"), "ROADMAP.md");
    assert_eq!(file_id("", "NOTE.md"), "NOTE.md");
}

#[test]
fn markdown_paths() {
    assert!(topo::scan::is_markdown_path("docs/a.md"));
    assert!(topo::scan::is_markdown_path("ROADMAP.md"));
    assert!(!topo::scan::is_markdown_path(".md"));
    assert!(!topo::scan::is_markdown_path("dir.md/file"));
    assert!(!topo::scan::is_markdown_path("notes.mdx"));
}
