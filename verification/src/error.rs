//! What can go wrong when a table is read or sampled.

use vstd::prelude::*;
use vstd::string::StringExecFns;

verus! {

/// Why a text was not read as a table.
#[derive(Clone, Debug, PartialEq, Eq)]
pub enum TableError {
    /// The text does not describe a table; the field says why.
    Malformed(String),
}

/// Why no name was generated.
#[derive(Clone, Debug, PartialEq, Eq)]
pub enum SampleError {
    /// The table has no context of exactly one character to start from.
    MissingStartSymbol,
    /// The walk reached the context in the field, which the table lacks.
    MissingContext(String),
    /// The walk would have grown beyond the length bound.
    LengthLimit,
}

impl TableError {
    /// The description of the error as a sequence of characters.
    pub open spec fn description(&self) -> Seq<char> {
        match self {
            TableError::Malformed(reason) => "malformed table: "@ + reason@,
        }
    }

    /// A description that names the kind of the error and the reason.
    pub fn message(&self) -> (text: String)
        ensures
            text@ == self.description(),
    {
        match self {
            TableError::Malformed(reason) => {
                String::from_str("malformed table: ").concat(reason.as_str())
            },
        }
    }
}

impl SampleError {
    /// The description of the error as a sequence of characters.
    pub open spec fn description(&self) -> Seq<char> {
        match self {
            SampleError::MissingStartSymbol => "the table has no start symbol"@,
            SampleError::MissingContext(context) => "the table has no context "@ + context@,
            SampleError::LengthLimit => "the name grew beyond the length bound"@,
        }
    }

    /// A description that names the kind of the error and, for a missing
    /// context, the context.
    pub fn message(&self) -> (text: String)
        ensures
            text@ == self.description(),
    {
        match self {
            SampleError::MissingStartSymbol => String::from_str("the table has no start symbol"),
            SampleError::MissingContext(context) => {
                String::from_str("the table has no context ").concat(context.as_str())
            },
            SampleError::LengthLimit => String::from_str("the name grew beyond the length bound"),
        }
    }
}

} // verus!
