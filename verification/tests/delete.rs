use topo::delete::{delete_task, find_task_line, indent_level, is_task_line};
use topo::ops::delete::run;
use topo::ops::OpError;

#[test]
fn delete_single_task() {
    let result = run("ROADMAP.md#alpha", "# S\n- [ ] Alpha\n- [ ] Beta\n").ok().unwrap();
    assert!(!result.contains("Alpha"));
    assert!(result.contains("Beta"));
}

#[test]
fn delete_task_with_subtasks() {
    let result = run("ROADMAP.md#parent", "# S\n- [ ] Parent\n  - [ ] Child\n- [ ] Other\n").ok().unwrap();
    assert!(!result.contains("Parent"));
    assert!(!result.contains("Child"));
    assert!(result.contains("Other"));
}

#[test]
fn error_not_found() {
    let err = run("ROADMAP.md#beta", "# S\n- [ ] Alpha\n").err().unwrap();
    assert!(err.message().contains("not found"));
}

#[test]
fn delete_keeps_everything_else_verbatim() {
    let result = delete_task("ROADMAP.md#b", "# S\n\n- [ ] A\n- [x] B\n  - [ ] B1\n\n    more\n- [ ] C\n").ok().unwrap();
    assert_eq!(result, "# S\n\n- [ ] A\n- [ ] C\n");
    let result = delete_task("ROADMAP.md#b", "- [ ] B\n\n  - [ ] B1\n    note\n- [ ] C").ok().unwrap();
    assert_eq!(result, "- [ ] C");
}

#[test]
fn delete_refuses_sections() {
    let err = delete_task("ROADMAP.md#s", "# S\n- [ ] A\n").err().unwrap();
    assert!(matches!(err, OpError::NotATask(_)));
    assert!(err.message().contains("is not a task"));
}

#[test]
fn task_lines_and_indents() {
    assert!(is_task_line("  - [ ] x"));
    assert!(!is_task_line("* [x] y"));
    assert!(is_task_line("- [X] y"));
    assert!(is_task_line("- [~] z"));
    assert!(!is_task_line("- plain"));
    assert_eq!(indent_level("    - [ ] x"), 4);
    assert_eq!(indent_level("x"), 0);
    assert_eq!(find_task_line("# S\n- [ ] A\n- [ ] B\n", "ROADMAP.md#b"), Some(2));
    assert_eq!(find_task_line("# S\n- [ ] A\n", "ROADMAP.md#zz"), None);
}

#[test]
fn delete_removes_blank_line_description() {
    let text = "# S\n- [ ] 1.1 Alpha\n\n  Alpha notes\n- [ ] 1.2 Beta\n";
    let result = run("ROADMAP.md#alphaalpha-notes", text).ok().unwrap();
    assert!(!result.contains("Alpha"));
    assert_eq!(result, "# S\n- [ ] 1.2 Beta\n");
    let by_stable_id = run("ROADMAP.md#1.1", text).ok().unwrap();
    assert_eq!(by_stable_id, "# S\n- [ ] 1.2 Beta\n");
    let err = run("ROADMAP.md#alpha", text).err().unwrap();
    assert!(matches!(err, OpError::NodeNotFound(_)));
}

#[test]
fn task_line_found_by_slug_when_no_id_matches() {
    assert_eq!(find_task_line("# S\n- [ ] 1.1 Alpha\n\n  notes\n", "ROADMAP.md#alphanotes"), Some(1));
    assert_eq!(find_task_line("- [ ] Notes\n- [ ] Alpha\n", "ROADMAP.md#alpha"), Some(1));
    assert_eq!(find_task_line("- [ ] Beta\n", "ROADMAP.md#alphanotes"), None);
}

#[test]
fn task_line_matches_whole_id_only() {
    assert_eq!(find_task_line("- [ ] Alpha\n- [ ] Alpha beta\n", "ROADMAP.md#alpha-beta"), Some(1));
    assert_eq!(find_task_line("- [ ] Alpha beta\n", "ROADMAP.md#alpha"), None);
    assert_eq!(find_task_line("## Alpha\n- [ ] Alpha\n", "ROADMAP.md#alpha-2"), Some(1));
    assert_eq!(find_task_line("- [ ] [1.1](roadmap/scan.md) Scan\n", "ROADMAP.md#scan"), Some(0));
}

#[test]
fn delete_task_named_like_a_heading() {
    let result = run("ROADMAP.md#alpha-2", "## Alpha\n- [ ] Alpha\n- [ ] Beta\n").ok().unwrap();
    assert_eq!(result, "## Alpha\n- [ ] Beta\n");
}
