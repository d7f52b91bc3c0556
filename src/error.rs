use vstd::prelude::*;

verus! {

/// Everything that the library's operations can report.
#[derive(Debug, PartialEq, Eq)]
pub enum Error {
    /// The raw path held a parent-traversal segment; carries the raw text.
    InvalidPath(String),
    /// Nothing in the store matches the path; carries the path's text.
    NotInStore(String),
    /// A removal would take several entries but recursion was not asked for.
    IsADirectory(String),
    /// A persisted snapshot could not be read or written as JSON.
    Serde(String),
}

} // verus!
