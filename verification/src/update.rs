//! The command line's `field=value` form of a status update.

use vstd::prelude::*;

use crate::graph::opt_str_view;
use crate::ops::{OpError, OpErrorView, UpdateTaskInput};
use crate::text::{chars_of, seq_eq, split_once, split_once_s, string_of};

verus! {

/// `status=value` becomes a status update; anything else is refused.
pub open spec fn assignment_spec(a: Seq<char>) -> Result<Option<Seq<char>>, OpErrorView> {
    match split_once_s(a, '=') {
        None => Err(OpErrorView::InvalidAssignment),
        Some((field, value)) => if field != "status"@ {
            Err(OpErrorView::UnsupportedField(field))
        } else {
            Ok(Some(value))
        },
    }
}

/// Reads an assignment `field=value`; only the field `status` is supported.
pub fn parse_assignment(assignment: &str) -> (r: Result<UpdateTaskInput, OpError>)
    ensures
        match r {
            Ok(input) => assignment_spec(assignment@) == Ok::<Option<Seq<char>>, OpErrorView>(opt_str_view(input.status)),
            Err(e) => assignment_spec(assignment@) == Err::<Option<Seq<char>>, OpErrorView>(e@),
        },
{
    match split_once(&chars_of(assignment), '=') {
        None => Err(OpError::InvalidAssignment),
        Some((field, value)) => {
            if !seq_eq(&field, &chars_of("status")) {
                Err(OpError::UnsupportedField(string_of(&field)))
            } else {
                Ok(UpdateTaskInput { status: Some(string_of(&value)) })
            }
        },
    }
}

} // verus!
