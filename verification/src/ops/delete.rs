//! Deleting a task from the roadmap.

use vstd::prelude::*;

use crate::delete::{delete_spec, delete_task};
use crate::ops::{OpError, OpErrorView};
use crate::scan::markdown::parse_spec;

verus! {

/// Deletes a task from the text of `ROADMAP.md`: the task's line and the lines nested
/// under it go; the result is the new text.
pub fn run(task_id: &str, content: &str) -> (r: Result<String, OpError>)
    ensures
        match r {
            Ok(s) => delete_spec(task_id@, content@, parse_spec("ROADMAP.md"@, content@).nodes) == Ok::<Seq<char>, OpErrorView>(s@),
            Err(e) => delete_spec(task_id@, content@, parse_spec("ROADMAP.md"@, content@).nodes) == Err::<Seq<char>, OpErrorView>(e@),
        },
{
    delete_task(task_id, content)
}

} // verus!
