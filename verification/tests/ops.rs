use topo::dedup::run as renumber;
use topo::graph::{Edge, EdgeKind, Graph, Metadata, Node, NodeKind};
use topo::ops::add::{next_free_id, parse_u32, run as add};
use topo::ops::{AddTaskInput, OpError, OpResult};
use topo::output::{graph_lines, OutputFormat};
use topo::scan::markdown::parse_markdown;
use topo::serve::{filter_archive_only, filter_by_prefix, filter_roadmap_docs_only, filter_roadmap_only, find_task};
use topo::status::{archive_hint, build, build_checked, report_lines};

fn input(desc: &str, section: usize, parent: Option<&str>, task_desc: Option<&str>) -> AddTaskInput {
    AddTaskInput {
        description: desc.to_string(),
        section,
        parent: parent.map(|p| p.to_string()),
        task_description: task_desc.map(|d| d.to_string()),
    }
}

fn scanned(file: &str, text: &str) -> Graph {
    let mut g = Graph::new();
    let mut links = Vec::new();
    parse_markdown(file, text, &mut g, &mut links);
    g
}

const ROADMAP: &str = "# R\n\n## 1. Core\n\n- [ ] 1.1 Scan\n- [x] 1.2 Query\n\n## 2. Later\n";

#[test]
fn add_appends_next_id_in_section() {
    let out = add(&input("New thing", 1, None, None), false, ROADMAP, None).ok().unwrap();
    assert_eq!(out.id, "1.3");
    assert_eq!(out.roadmap, "# R\n\n## 1. Core\n\n- [ ] 1.1 Scan\n- [x] 1.2 Query\n\n- [ ] 1.3 New thing\n## 2. Later\n");
    assert!(out.detail_doc.is_none());
}

#[test]
fn add_skips_ids_used_in_archive() {
    let archive = "# Archive\n\n## 1. Core\n- [x] 1.3 Old\n";
    let out = add(&input("New thing", 1, None, None), false, ROADMAP, Some(archive)).ok().unwrap();
    assert_eq!(out.id, "1.4");
}

#[test]
fn add_into_empty_section() {
    let out = add(&input("First", 2, None, None), false, ROADMAP, None).ok().unwrap();
    assert_eq!(out.id, "2.1");
    assert!(out.roadmap.ends_with("## 2. Later\n- [ ] 2.1 First\n"));
}

#[test]
fn add_subtask_under_parent() {
    let roadmap = "# R\n\n## 1. Core\n\n- [ ] 1.1 Scan\n  - [ ] 1.1.1 Part\n- [ ] 1.2 Query\n";
    let out = add(&input("Sub", 1, Some("1.1"), Some("Why")), false, roadmap, None).ok().unwrap();
    assert_eq!(out.id, "1.1.2");
    assert_eq!(
        out.roadmap,
        "# R\n\n## 1. Core\n\n- [ ] 1.1 Scan\n  - [ ] 1.1.1 Part\n  - [ ] 1.1.2 Sub\n\n    Why\n- [ ] 1.2 Query\n"
    );
}

#[test]
fn add_with_detail_document() {
    let out = add(&input("New thing", 1, None, None), true, ROADMAP, None).ok().unwrap();
    assert!(out.roadmap.contains("- [ ] [1.3](roadmap/new-thing.md) New thing\n"));
    let doc = out.detail_doc.unwrap();
    assert_eq!(doc.path, "roadmap/new-thing.md");
    assert!(doc.text.starts_with("# Task: New thing\n\n## Context\n"));
    assert!(doc.text.ends_with("## Plan\nConcrete implementation steps.\n"));
}

#[test]
fn add_errors() {
    let e = add(&input("X", 7, None, None), false, ROADMAP, None).err().unwrap();
    assert!(matches!(e, OpError::SectionNotFound(7)));
    assert_eq!(e.message(), "section 7 not found");
    let e = add(&input("X", 1, Some("9.9"), None), false, ROADMAP, None).err().unwrap();
    assert_eq!(e.message(), "parent task 9.9 not found");
}

#[test]
fn free_ids_and_numbers() {
    let used = vec!["1.1".to_string(), "1.2".to_string(), "1.4".to_string()];
    let prefix: Vec<char> = "1".chars().collect();
    assert_eq!(next_free_id(&used, &prefix, 1), "1.3");
    assert_eq!(next_free_id(&used, &prefix, 4), "1.5");
    let c = |s: &str| s.chars().collect::<Vec<char>>();
    assert_eq!(parse_u32(&c("42")), Some(42));
    assert_eq!(parse_u32(&c("+7")), Some(7));
    assert_eq!(parse_u32(&c("4294967296")), None);
    assert_eq!(parse_u32(&c("")), None);
    assert_eq!(parse_u32(&c("1a")), None);
}

#[test]
fn error_messages() {
    assert_eq!(OpError::NoStatus.message(), "no status provided");
    assert_eq!(OpError::InvalidId.message(), "invalid ID, expected file#slug");
    assert_eq!(OpError::UnsupportedField("p".into()).message(), "unsupported field 'p', only 'status' is supported");
    assert_eq!(OpError::NodeNotFound("a#b".into()).message(), "node 'a#b' not found");
    assert_eq!(OpError::NotATask("a#b".into()).message(), "node 'a#b' is not a task");
    assert_eq!(OpError::CheckboxNotFound("a#b".into()).message(), "checkbox for 'a#b' not found");
    assert_eq!(OpError::TaskLineNotFound("a#b".into()).message(), "task line for 'a#b' not found");
    assert_eq!(OpError::SectionNotFound(12).message(), "section 12 not found");
    assert_eq!(OpError::ParentNotFound("3.1".into()).message(), "parent task 3.1 not found");
}

#[test]
fn op_results() {
    let ok = OpResult::ok();
    assert!(ok.success && ok.id.is_none() && ok.error.is_none());
    let with = OpResult::ok_with_id("1.2".into());
    assert_eq!(with.id.as_deref(), Some("1.2"));
    let err = OpResult::err("bad".into());
    assert!(!err.success);
    assert_eq!(err.error.as_deref(), Some("bad"));
}

#[test]
fn renumber_sections() {
    let text = "# R\n\n## 1. Core\n- [ ] 1.1 A\n- [ ] 1.4 B\n- [x] 1.7 C\n  - [ ] 1.7.1 C1\n\n## 2. Next\n- [ ] 2.5 D\n\n## Notes\n- [ ] 9.9 E\n";
    let plan = renumber(text);
    let renames: Vec<(&str, &str)> = plan.renames.iter().map(|(a, b)| (a.as_str(), b.as_str())).collect();
    assert_eq!(renames, vec![("1.4", "1.2"), ("1.7", "1.3"), ("2.5", "2.1")]);
    assert_eq!(
        plan.content,
        "# R\n\n## 1. Core\n- [ ] 1.1 A\n- [ ] 1.2 B\n- [x] 1.3 C\n  - [ ] 1.7.1 C1\n\n## 2. Next\n- [ ] 2.1 D\n\n## Notes\n- [ ] 9.9 E\n"
    );
    let none = renumber("## 1. Core\n- [ ] 1.1 A\n");
    assert!(none.renames.is_empty());
}

#[test]
fn status_of_roadmap() {
    let g = scanned(
        "ROADMAP.md",
        "# R\n\n## 1. Core\n- [x] 1.1 A\n- [ ] 1.2 B\n  - [x] 1.2.1 B1\n  - [x] 1.2.2 B2\n\n## 2. Done\n- [x] 2.1 C\n- [~] 2.2 D\n\n## 3. Empty\n",
    );
    let out = build(&g);
    assert_eq!((out.total, out.done, out.todo), (4, 3, 1));
    let checked = build_checked(&g).unwrap();
    assert_eq!((checked.total, checked.done, checked.stages.len()), (4, 3, 3));
    assert_eq!(out.stages.len(), 3);
    assert_eq!(out.stages[0].tasks[1].status, "done");
    let sub = out.stages[0].tasks[1].subtasks.as_ref().unwrap();
    assert_eq!((sub.total, sub.done), (2, 2));
    assert_eq!(
        report_lines(&out),
        vec![
            "Progress: 3/4 tasks done",
            "Remaining: 1",
            "",
            "1. Core — 2/2 (100%)",
            "  [x] 1.1 A",
            "  [x] 1.2 2/2 subtasks",
            "",
            "2. Done — 1/2 (50%)",
            "  [x] 2.1 C",
            "  [~] 2.2 D",
            "",
        ]
    );
    assert_eq!(
        archive_hint(&out).unwrap(),
        "Hint: 1. Core, 2. Done — all tasks done/dropped. If no more tasks are planned for these sections, run `topo archive` to clean up."
    );
}

#[test]
fn status_with_open_subtask() {
    let g = scanned("ROADMAP.md", "## S\n- [x] Parent\n  - [ ] Child\n  - [x] Other\n");
    let out = build(&g);
    assert_eq!(out.stages[0].tasks[0].status, "todo");
    assert_eq!((out.done, out.todo), (0, 1));
    assert!(archive_hint(&out).is_none());
}

fn task(id: &str, label: &str, status: &str, sid: Option<&str>) -> Node {
    Node {
        id: id.into(),
        kind: NodeKind::Task,
        source: "markdown".into(),
        label: label.into(),
        metadata: Some(Metadata { level: None, status: Some(status.into()), stable_id: sid.map(|s| s.to_string()) }),
    }
}

fn section(id: &str, label: &str) -> Node {
    Node { id: id.into(), kind: NodeKind::Section, source: "markdown".into(), label: label.into(), metadata: None }
}

fn contains(a: &str, b: &str) -> Edge {
    Edge { source: a.into(), target: b.into(), kind: EdgeKind::Contains }
}

fn sample() -> Graph {
    Graph {
        nodes: vec![
            section("ROADMAP.md#s", "S"),
            task("ROADMAP.md#a", "A", "done", Some("1.1")),
            task("ROADMAP.md#b", "B", "in-progress", None),
            section("ARCHIVE.md#s", "Old"),
            section("roadmap/a.md#a", "Detail"),
        ],
        edges: vec![
            contains("ROADMAP.md#s", "ROADMAP.md#a"),
            contains("ROADMAP.md#a", "ROADMAP.md#b"),
            contains("ROADMAP.md#s", "ARCHIVE.md#s"),
        ],
    }
}

#[test]
fn output_formats() {
    let g = sample();
    assert!(graph_lines(&g, OutputFormat::Json).is_none());
    assert_eq!(graph_lines(&g, OutputFormat::Ids).unwrap()[1], "ROADMAP.md#a");
    assert_eq!(graph_lines(&g, OutputFormat::Compact).unwrap()[0], "ROADMAP.md#s\tS");
    assert_eq!(
        graph_lines(&g, OutputFormat::Tree).unwrap(),
        vec!["S", "  [x] 1.1 A", "    [-] B", "  Old", "Detail"]
    );
}

#[test]
fn serve_filters() {
    let g = sample();
    let r = filter_roadmap_only(&g);
    assert_eq!(r.nodes.len(), 3);
    assert_eq!(r.edges.len(), 2);
    let a = filter_archive_only(&g);
    assert_eq!(a.nodes.len(), 1);
    assert!(a.edges.is_empty());
    let d = filter_roadmap_docs_only(&g);
    assert_eq!(d.nodes[0].label, "Detail");
    let p = filter_by_prefix(&g, "ROADMAP.md#a");
    assert_eq!(p.nodes.len(), 1);
    assert!(p.edges.is_empty());
}

#[test]
fn tasks_by_id_or_stable_id() {
    let g = sample();
    assert_eq!(find_task(&g, "ROADMAP.md#b").unwrap().label, "B");
    assert_eq!(find_task(&g, "1.1").unwrap().id, "ROADMAP.md#a");
    assert!(find_task(&g, "2.1").is_none());
}
