//! Typed errors surfaced to the caller. Each carries the offending input for
//! diagnostic context; none is retried.

use vstd::prelude::*;

verus! {

/// The error kinds one invocation can surface.
#[derive(Debug, PartialEq, Eq)]
pub enum ToolError {
    /// The file extension (after stripping a recognized compression suffix)
    /// is missing or not a supported format.
    FormatError { path: String },
    /// A file could not be opened, read or written.
    IoError { path: String, message: String },
    /// A filter predicate string failed to parse.
    FilterSyntaxError { predicate: String },
    /// A referenced column is absent from the schema.
    ColumnNotFoundError { column: String },
    /// A numeric sample-size, head or tail argument is not a valid number.
    ParseError { argument: String },
}

impl ToolError {
    /// The input fragment the error carries, for diagnostics.
    pub fn offending_input(&self) -> (r: &String)
        ensures
            r@ == match self {
                ToolError::FormatError { path } => path@,
                ToolError::IoError { path, .. } => path@,
                ToolError::FilterSyntaxError { predicate } => predicate@,
                ToolError::ColumnNotFoundError { column } => column@,
                ToolError::ParseError { argument } => argument@,
            },
    {
        match self {
            ToolError::FormatError { path } => path,
            ToolError::IoError { path, .. } => path,
            ToolError::FilterSyntaxError { predicate } => predicate,
            ToolError::ColumnNotFoundError { column } => column,
            ToolError::ParseError { argument } => argument,
        }
    }
}

} // verus!
