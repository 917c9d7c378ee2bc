use topo::ops::update::{file_of, update_content};
use topo::ops::{OpError, UpdateTaskInput};
use topo::update::parse_assignment;

/// Applies an assignment `field=value` to the task `id` of the given text, as the
/// command line does.
fn run(id: &str, assignment: &str, content: &str) -> Result<String, OpError> {
    let input = parse_assignment(assignment)?;
    update_content(id, &input, content)
}

#[test]
fn toggle_todo_to_done() {
    let result = run("T.md#alpha", "status=done", "# S\n- [ ] Alpha\n- [ ] Beta\n").ok().unwrap();
    assert!(result.contains("- [x] Alpha"));
    assert!(result.contains("- [ ] Beta"));
}

#[test]
fn toggle_done_to_todo() {
    let result = run("T.md#alpha", "status=todo", "# S\n- [x] Alpha\n").ok().unwrap();
    assert!(result.contains("- [ ] Alpha"));
}

#[test]
fn dedup_second_occurrence() {
    let result = run("T.md#dup-2", "status=done", "# S\n- [ ] Dup\n- [ ] Dup\n").ok().unwrap();
    let lines: Vec<&str> = result.lines().collect();
    assert_eq!(lines[1], "- [ ] Dup");
    assert_eq!(lines[2], "- [x] Dup");
}

#[test]
fn nested_indented_task() {
    let result = run("T.md#child", "status=done", "# S\n- [ ] Parent\n  - [ ] Child\n").ok().unwrap();
    assert!(result.contains("  - [x] Child"));
    assert!(result.contains("- [ ] Parent"));
}

#[test]
fn error_node_not_found() {
    let err = run("T.md#nope", "status=done", "# S\n- [ ] Alpha\n").err().unwrap();
    assert!(err.message().contains("not found"));
}

#[test]
fn error_non_task_node() {
    let err = run("T.md#mysection", "status=done", "# MySection\n- [ ] Alpha\n").err().unwrap();
    assert!(err.message().contains("not a task"));
}

#[test]
fn task_with_numeric_id() {
    let result =
        run("T.md#scan-project", "status=done", "# S\n- [ ] 1.1 Scan project\n- [ ] 1.2 Query engine\n").ok().unwrap();
    assert!(result.contains("- [x] 1.1 Scan project"));
    assert!(result.contains("- [ ] 1.2 Query engine"));
}

#[test]
fn set_in_progress() {
    let result = run("T.md#alpha", "status=in-progress", "# S\n- [ ] Alpha\n").ok().unwrap();
    assert!(result.contains("- [-] Alpha"));
}

#[test]
fn set_dropped() {
    let result = run("T.md#alpha", "status=dropped", "# S\n- [-] Alpha\n").ok().unwrap();
    assert!(result.contains("- [~] Alpha"));
}

#[test]
fn dropped_to_todo() {
    let result = run("T.md#alpha", "status=todo", "# S\n- [~] Alpha\n").ok().unwrap();
    assert!(result.contains("- [ ] Alpha"));
}

#[test]
fn error_unsupported_field() {
    let err = run("T.md#alpha", "priority=high", "# S\n- [ ] Alpha\n").err().unwrap();
    assert!(err.message().contains("unsupported field"));
}

#[test]
fn assignment_errors() {
    let e = parse_assignment("status").err().unwrap();
    assert!(matches!(e, OpError::InvalidAssignment));
    assert_eq!(e.message(), "invalid assignment, expected field=value");
    let ok = parse_assignment("status=a=b").ok().unwrap();
    assert_eq!(ok.status.as_deref(), Some("a=b"));
}

#[test]
fn status_input_errors() {
    let none = UpdateTaskInput { status: None };
    assert!(matches!(file_of("T.md#a", &none), Err(OpError::NoStatus)));
    let bad = UpdateTaskInput { status: Some("later".into()) };
    let e = file_of("T.md#a", &bad).err().unwrap();
    assert_eq!(e.message(), "unsupported value 'later', expected one of: done, todo, in-progress, dropped");
    let good = UpdateTaskInput { status: Some("done".into()) };
    assert!(matches!(file_of("no-hash", &good), Err(OpError::InvalidId)));
    assert_eq!(file_of("dir/T.md#a", &good).ok().unwrap(), "dir/T.md");
}

#[test]
fn update_keeps_other_text() {
    let input = UpdateTaskInput { status: Some("done".into()) };
    let result = update_content("T.md#b", &input, "# S\r\n- [ ] A\n- [ ] B").ok().unwrap();
    assert_eq!(result, "# S\n- [ ] A\n- [x] B");
}

#[test]
fn task_with_linked_numeric_id() {
    let result = run("T.md#scan", "status=done", "# S\n- [ ] [1.1](roadmap/scan.md) Scan\n").ok().unwrap();
    assert_eq!(result, "# S\n- [x] [1.1](roadmap/scan.md) Scan\n");
}
