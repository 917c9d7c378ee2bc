//! Operations that edit the roadmap files: their requests, results and errors.

pub mod add;
pub mod archive;
pub mod delete;
pub mod unarchive;
pub mod update;

use vstd::prelude::*;

use crate::graph::opt_str_view;
use crate::scan::markdown::{decimal, decimal_of};
use crate::text::{chars_of, extend, string_of};

verus! {

/// Common request format for adding a task.
pub struct AddTaskInput {
    /// Task description/title.
    pub description: String,
    /// Section number to add the task to.
    pub section: usize,
    /// Optional parent task id for subtasks.
    pub parent: Option<String>,
    /// Optional task description text.
    pub task_description: Option<String>,
}

/// Common request format for updating a task.
pub struct UpdateTaskInput {
    /// Task status: todo, done, in-progress, dropped.
    pub status: Option<String>,
}

/// Common request format for unarchiving a task.
pub struct UnarchiveInput {
    /// Task id to unarchive (e.g. "1.1").
    pub task_id: Option<String>,
}

/// Common response format for operations.
pub struct OpResult {
    pub success: bool,
    pub id: Option<String>,
    pub error: Option<String>,
}

impl OpResult {
    pub fn ok() -> (r: Self)
        ensures
            r.success,
            r.id is None,
            r.error is None,
    {
        OpResult { success: true, id: None, error: None }
    }

    pub fn ok_with_id(id: String) -> (r: Self)
        ensures
            r.success,
            opt_str_view(r.id) == Some(id@),
            r.error is None,
    {
        OpResult { success: true, id: Some(id), error: None }
    }

    pub fn err(msg: String) -> (r: Self)
        ensures
            !r.success,
            r.id is None,
            opt_str_view(r.error) == Some(msg@),
    {
        OpResult { success: false, id: None, error: Some(msg) }
    }
}

/// Why an operation on the roadmap was refused.
pub enum OpError {
    NoStatus,
    UnsupportedValue(String),
    InvalidId,
    InvalidAssignment,
    UnsupportedField(String),
    NodeNotFound(String),
    NotATask(String),
    CheckboxNotFound(String),
    TaskLineNotFound(String),
    SectionNotFound(usize),
    ParentNotFound(String),
}

pub enum OpErrorView {
    NoStatus,
    UnsupportedValue(Seq<char>),
    InvalidId,
    InvalidAssignment,
    UnsupportedField(Seq<char>),
    NodeNotFound(Seq<char>),
    NotATask(Seq<char>),
    CheckboxNotFound(Seq<char>),
    TaskLineNotFound(Seq<char>),
    SectionNotFound(nat),
    ParentNotFound(Seq<char>),
}

impl View for OpError {
    type V = OpErrorView;

    open spec fn view(&self) -> OpErrorView {
        match self {
            OpError::NoStatus => OpErrorView::NoStatus,
            OpError::UnsupportedValue(s) => OpErrorView::UnsupportedValue(s@),
            OpError::InvalidId => OpErrorView::InvalidId,
            OpError::InvalidAssignment => OpErrorView::InvalidAssignment,
            OpError::UnsupportedField(s) => OpErrorView::UnsupportedField(s@),
            OpError::NodeNotFound(s) => OpErrorView::NodeNotFound(s@),
            OpError::NotATask(s) => OpErrorView::NotATask(s@),
            OpError::CheckboxNotFound(s) => OpErrorView::CheckboxNotFound(s@),
            OpError::TaskLineNotFound(s) => OpErrorView::TaskLineNotFound(s@),
            OpError::SectionNotFound(n) => OpErrorView::SectionNotFound(*n as nat),
            OpError::ParentNotFound(s) => OpErrorView::ParentNotFound(s@),
        }
    }
}

pub open spec fn op_message(e: OpErrorView) -> Seq<char> {
    match e {
        OpErrorView::NoStatus => "no status provided"@,
        OpErrorView::UnsupportedValue(s) => "unsupported value '"@ + s
            + "', expected one of: done, todo, in-progress, dropped"@,
        OpErrorView::InvalidId => "invalid ID, expected file#slug"@,
        OpErrorView::InvalidAssignment => "invalid assignment, expected field=value"@,
        OpErrorView::UnsupportedField(s) => "unsupported field '"@ + s
            + "', only 'status' is supported"@,
        OpErrorView::NodeNotFound(s) => "node '"@ + s + "' not found"@,
        OpErrorView::NotATask(s) => "node '"@ + s + "' is not a task"@,
        OpErrorView::CheckboxNotFound(s) => "checkbox for '"@ + s + "' not found"@,
        OpErrorView::TaskLineNotFound(s) => "task line for '"@ + s + "' not found"@,
        OpErrorView::SectionNotFound(n) => "section "@ + decimal(n) + " not found"@,
        OpErrorView::ParentNotFound(s) => "parent task "@ + s + " not found"@,
    }
}

fn wrap(a: &str, s: &String, b: &str) -> (r: String)
    ensures
        r@ == a@ + s@ + b@,
{
    let mut v = chars_of(a);
    extend(&mut v, &chars_of(s.as_str()));
    extend(&mut v, &chars_of(b));
    string_of(&v)
}

impl OpError {
    /// The text of the error.
    pub fn message(&self) -> (r: String)
        ensures
            r@ == op_message(self@),
    {
        match self {
            OpError::NoStatus => String::from_str("no status provided"),
            OpError::UnsupportedValue(s) => wrap(
                "unsupported value '",
                s,
                "', expected one of: done, todo, in-progress, dropped",
            ),
            OpError::InvalidId => String::from_str("invalid ID, expected file#slug"),
            OpError::InvalidAssignment => String::from_str("invalid assignment, expected field=value"),
            OpError::UnsupportedField(s) => wrap("unsupported field '", s, "', only 'status' is supported"),
            OpError::NodeNotFound(s) => wrap("node '", s, "' not found"),
            OpError::NotATask(s) => wrap("node '", s, "' is not a task"),
            OpError::CheckboxNotFound(s) => wrap("checkbox for '", s, "' not found"),
            OpError::TaskLineNotFound(s) => wrap("task line for '", s, "' not found"),
            OpError::SectionNotFound(n) => {
                let d = string_of(&decimal_of(*n as u128));
                wrap("section ", &d, " not found")
            },
            OpError::ParentNotFound(s) => wrap("parent task ", s, " not found"),
        }
    }
}

} // verus!
