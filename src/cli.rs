//! The choices a caller makes: output shape and how symbols are shown.
use vstd::prelude::*;
use crate::command::joined;
use crate::decode::string_views;

verus! {

/// How the report is rendered.
#[derive(Debug, Clone, Copy, PartialEq, Eq, Structural)]
pub enum OutputFormat {
    List,
    Table,
    Json,
}

/// Whether and how symbol names appear in the report.
#[derive(Debug, Clone, Copy, PartialEq, Eq, Structural)]
pub enum ShowSymbols {
    No,
    Raw,
    Demangled,
}

/// Relies on std's `str::split` by `,`: the pieces between commas, in order,
/// so that joining them with commas gives the text back.
#[verifier::external_body]
fn split_commas(s: &str) -> (r: Vec<String>)
    ensures
        r@.len() >= 1,
        joined(string_views(r@)) == s@,
        forall|i: int| 0 <= i < r@.len() ==> !(#[trigger] r@[i]@).contains(','),
{
    s.split(',').map(|piece| piece.to_string()).collect()
}

/// Splits a comma-separated list of wildcard patterns.
pub fn parse_filter(filter: &str) -> (r: Vec<String>)
    ensures
        r@.len() >= 1,
        joined(string_views(r@)) == filter@,
        forall|i: int| 0 <= i < r@.len() ==> !(#[trigger] r@[i]@).contains(','),
{
    split_commas(filter)
}

} // verus!
