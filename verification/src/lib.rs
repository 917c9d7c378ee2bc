use vstd::prelude::*;

pub mod context;
pub mod dedup;
pub mod delete;
pub mod diff;
pub mod graph;
pub mod ops;
pub mod output;
pub mod query;
pub mod resolve;
pub mod scan;
pub mod serve;
pub mod sort;
pub mod status;
pub mod strmap;
pub mod text;
pub mod update;

verus! {

} // verus!
