//! The error kinds of a search run.

use vstd::prelude::*;
use vstd::string::StringExecFns;

verus! {

/// Everything that can go wrong during a run.
///
/// Only `InvalidPattern` is fatal; the others concern one input specifier or
/// one source and leave the rest of the run untouched.
#[derive(Debug)]
pub enum GreprError {
    /// The search pattern is not a valid regular expression. Holds the pattern.
    InvalidPattern(String),
    /// A file name wildcard could not be read. Holds the cause.
    PatternError(String),
    /// A path met while expanding a wildcard could not be read. Holds the cause.
    PathError(String),
    /// A source could not be opened or read. Holds the cause.
    IOError(String),
    /// An input specifier could not be turned into a source. Holds the diagnostic.
    SourceResolution(String),
}

/// The diagnostic text of an error, as a sequence of characters.
pub open spec fn message_of(e: GreprError) -> Seq<char> {
    match e {
        GreprError::InvalidPattern(p) => "Invalid pattern \""@ + p@ + "\""@,
        GreprError::PatternError(c) => "Failed to read glob pattern: "@ + c@,
        GreprError::PathError(c) => "Failed to read path: "@ + c@,
        GreprError::IOError(c) => "I/O Error: "@ + c@,
        GreprError::SourceResolution(m) => m@,
    }
}

impl GreprError {
    /// Renders the error as the one-line diagnostic shown to the user.
    pub fn message(&self) -> (text: String)
        ensures
            text@ == message_of(*self),
    {
        match self {
            GreprError::InvalidPattern(p) => {
                let mut text = String::from_str("Invalid pattern \"");
                text.append(p.as_str());
                text.append("\"");
                text
            },
            GreprError::PatternError(c) => {
                let mut text = String::from_str("Failed to read glob pattern: ");
                text.append(c.as_str());
                text
            },
            GreprError::PathError(c) => {
                let mut text = String::from_str("Failed to read path: ");
                text.append(c.as_str());
                text
            },
            GreprError::IOError(c) => {
                let mut text = String::from_str("I/O Error: ");
                text.append(c.as_str());
                text
            },
            GreprError::SourceResolution(m) => m.clone(),
        }
    }
}

} // verus!
