//! The ways in which a run can fail. Every one of them is final: nothing is
//! tried again and nothing is written after it.

use vstd::prelude::*;

verus! {

/// Why a run ends without a wrapper script.
#[derive(Debug, Clone, PartialEq, Eq)]
pub enum Error {
    /// An outside program could not be started, or ended without success.
    ExternalTool { tool: String, reason: String },
    /// A line of the package index's answer lacks a package name or a path.
    MalformedCandidate { line: String },
    /// No package provides the library.
    Unresolvable { library: String },
    /// The wrapper script could not be written or made executable.
    Output { reason: String },
}

impl Error {
    /// The text that tells a user of this failure.
    pub open spec fn message_text(&self) -> Seq<char> {
        match self {
            Error::ExternalTool { tool, reason } => tool@ + " "@ + reason@,
            Error::MalformedCandidate { line } => "malformed candidate line: "@ + line@,
            Error::Unresolvable { library } => "no provider found for "@ + library@,
            Error::Output { reason } => "unable to write the wrapper script: "@ + reason@,
        }
    }

    /// Renders the failure for the one place that reports it.
    pub fn message(&self) -> (text: String)
        ensures
            text@ == self.message_text(),
    {
        match self {
            Error::ExternalTool { tool, reason } => {
                let mut text = tool.clone();
                text.append(" ");
                text.append(reason.as_str());
                text
            },
            Error::MalformedCandidate { line } => {
                String::from_str("malformed candidate line: ").concat(line.as_str())
            },
            Error::Unresolvable { library } => {
                String::from_str("no provider found for ").concat(library.as_str())
            },
            Error::Output { reason } => {
                String::from_str("unable to write the wrapper script: ").concat(reason.as_str())
            },
        }
    }
}

} // verus!
