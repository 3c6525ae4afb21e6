//! A small error type carrying the source location at which it was raised.

use vstd::prelude::*;
use vstd::string::StringExecFns;
use crate::text::{dec_str, u32_to_string};

verus! {

/// An error tagged with the file, line and description of the spot where it
/// arose; a general-purpose carrier for failures outside the parser's own
/// closed error taxonomy.
#[derive(Debug, Clone, PartialEq, Eq)]
pub struct SpotError {
    pub file: &'static str,
    pub line: u32,
    pub desc: String,
}

impl SpotError {
    /// Builds a `SpotError` holding exactly the given location and text.
    pub fn new(file: &'static str, line: u32, desc: &str) -> (r: Self)
        ensures
            r.file@ == file@,
            r.line == line,
            r.desc@ == desc@,
    {
        Self { file, line, desc: desc.to_owned() }
    }

    /// Renders the error as one line of text: its location, then its
    /// description in quotes.
    pub fn message(&self) -> (r: String)
        ensures
            r@ == "SpotError("@ + self.file@ + ": "@ + dec_str(self.line as nat) + ", \""@
                + self.desc@ + "\")"@,
    {
        let mut s = String::from_str("SpotError(");
        s.append(self.file);
        s.append(": ");
        let line = u32_to_string(self.line);
        s.append(line.as_str());
        s.append(", \"");
        s.append(self.desc.as_str());
        s.append("\")");
        s
    }
}

pub type SpotResult<T> = Result<T, SpotError>;

} // verus!
