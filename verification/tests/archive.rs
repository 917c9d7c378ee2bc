use topo::ops::archive::run as archive;
use topo::ops::unarchive::{archived_tasks, run as unarchive};
use topo::ops::UnarchiveInput;

/// The two roadmap files of a project, as the command line keeps them.
struct Files {
    roadmap: String,
    archive: Option<String>,
}

impl Files {
    fn new(roadmap: &str) -> Files {
        Files { roadmap: roadmap.to_string(), archive: None }
    }
}

/// Archives as the command line does: the files change only when a block moves and
/// this is no dry run.
fn run(files: &mut Files, dry_run: bool) -> usize {
    let plan = archive(&files.roadmap, files.archive.as_deref());
    if plan.count > 0 && !dry_run {
        files.roadmap = plan.roadmap;
        files.archive = Some(plan.archive);
    }
    plan.count
}

#[test]
fn archive_done_blocks() {
    let mut f = Files::new("# Roadmap\n\n## 1. Core\n\n- [x] 1.1 Scan\n  - [x] 1.1.1 Parse\n- [ ] 1.2 Query\n");
    run(&mut f, false);
    assert!(!f.roadmap.contains("1.1 Scan"));
    assert!(f.roadmap.contains("1.2 Query"));
    let archive = f.archive.unwrap();
    assert!(archive.contains("1.1 Scan"));
    assert!(archive.contains("1.1.1 Parse"));
}

#[test]
fn block_with_incomplete_subtask_stays() {
    let mut f = Files::new("# R\n\n## S\n\n- [x] Parent\n  - [ ] Child\n");
    run(&mut f, false);
    assert!(f.roadmap.contains("Parent"));
    assert!(f.roadmap.contains("Child"));
}

#[test]
fn dropped_tasks_are_archivable() {
    let mut f = Files::new("# R\n\n## S\n\n- [~] Dropped task\n- [ ] Active\n");
    run(&mut f, false);
    assert!(!f.roadmap.contains("Dropped task"));
    assert!(f.roadmap.contains("Active"));
    assert!(f.archive.unwrap().contains("Dropped task"));
}

#[test]
fn nothing_to_archive() {
    let mut f = Files::new("# R\n\n## S\n\n- [ ] Todo\n");
    assert_eq!(run(&mut f, false), 0);
    assert!(f.roadmap.contains("Todo"));
    assert!(f.archive.is_none());
}

#[test]
fn dry_run_does_not_modify() {
    let original = "# R\n\n## S\n\n- [x] Done task\n- [ ] Todo\n";
    let mut f = Files::new(original);
    assert_eq!(run(&mut f, true), 1);
    assert_eq!(f.roadmap, original);
    assert!(f.archive.is_none());
}

#[test]
fn append_to_existing_archive() {
    let mut f = Files {
        roadmap: "# R\n\n## S\n\n- [x] New task\n".to_string(),
        archive: Some("# Archive\n\n## S\n- [x] Old task\n".to_string()),
    };
    run(&mut f, false);
    let archive = f.archive.unwrap();
    assert!(archive.contains("Old task"));
    assert!(archive.contains("New task"));
}

#[test]
fn archive_texts_exactly() {
    let plan = archive("# Roadmap\n\n## 1. Core\n\n- [x] 1.1 Scan\n  - [x] 1.1.1 Parse\n- [ ] 1.2 Query\n", None);
    assert_eq!(plan.count, 1);
    assert_eq!(plan.roadmap, "# Roadmap\n\n## 1. Core\n\n- [ ] 1.2 Query\n");
    assert_eq!(plan.archive, "# Archive\n\n## 1. Core\n- [x] 1.1 Scan\n  - [x] 1.1.1 Parse\n");
    let plan = archive("## A\n- [x] a\n## B\n- [x] b\n- [X] c\n", Some("# Archive"));
    assert_eq!(plan.count, 3);
    assert_eq!(plan.roadmap, "## A\n## B\n");
    assert_eq!(plan.archive, "# Archive\n\n## A\n- [x] a\n\n## B\n- [x] b\n- [X] c\n");
}

#[test]
fn unarchive_restores_into_section() {
    let roadmap = "# R\n\n## S\n\n- [ ] 1.2 Next\n\n## T\n- [ ] 2.1 Other\n";
    let archived = "# Archive\n\n## S\n- [x] 1.1 Old\n  - [x] 1.1.1 Part\n- [x] 1.3 Later\n";
    let one = UnarchiveInput { task_id: Some("1.1".to_string()) };
    let plan = unarchive(roadmap, archived, &one);
    assert_eq!(plan.count, 1);
    assert_eq!(
        plan.roadmap,
        "# R\n\n## S\n\n- [ ] 1.2 Next\n- [x] 1.1 Old\n  - [x] 1.1.1 Part\n\n## T\n- [ ] 2.1 Other\n"
    );
    assert_eq!(plan.archive, "# Archive\n\n## S\n- [x] 1.3 Later\n");
    let none = UnarchiveInput { task_id: None };
    let plan = unarchive(roadmap, archived, &none);
    assert_eq!(plan.count, 0);
    assert_eq!(plan.roadmap, roadmap);
    assert_eq!(plan.archive, archived);
    assert_eq!(archived_tasks(archived), vec!["- [x] 1.1 Old".to_string(), "- [x] 1.3 Later".to_string()]);
}

#[test]
fn unarchive_adds_missing_section() {
    let plan = unarchive("# R\n", "## Gone\n- [x] 9.1 Old\n", &UnarchiveInput { task_id: Some("9.1".into()) });
    assert_eq!(plan.count, 1);
    assert_eq!(plan.roadmap, "# R\n\n## Gone\n- [x] 9.1 Old\n");
    let none = unarchive("# R\n", "## Gone\n- [x] 9.1 Old\n", &UnarchiveInput { task_id: Some("9.2".into()) });
    assert_eq!(none.count, 0);
    assert_eq!(none.roadmap, "# R\n");
}

#[test]
fn archive_then_unarchive_brings_block_back() {
    let roadmap = "# R\n\n## S\n- [ ] 1.1 Open\n- [x] 1.2 Shut\n";
    let a = archive(roadmap, None);
    assert_eq!(a.roadmap, "# R\n\n## S\n- [ ] 1.1 Open\n");
    let u = unarchive(&a.roadmap, &a.archive, &UnarchiveInput { task_id: Some("1.2".into()) });
    assert_eq!(u.roadmap, roadmap);
    assert_eq!(u.archive, "# Archive\n\n## S\n");
}

#[test]
fn existing_archive_text_is_kept_in_front() {
    let old = "# Archive\n\n## S\n- [x] Old task";
    let plan = archive("## S\n- [x] New\n- [ ] Open\n", Some(old));
    assert!(plan.archive.starts_with(old));
    assert_eq!(plan.archive, "# Archive\n\n## S\n- [x] Old task\n\n## S\n- [x] New\n");
    let mut kept: Vec<&str> = plan.roadmap.lines().collect();
    kept.extend(plan.archive[old.len() + 1..].lines().filter(|l| !l.is_empty() && !l.starts_with("## ")));
    kept.sort();
    assert_eq!(kept, vec!["## S", "- [ ] Open", "- [x] New"]);
}
