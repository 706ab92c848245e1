//! The outside programs that a run depends on: the linker's inspector, the
//! package index and the sandbox builder. Their command lines are values, so
//! that a caller can put other programs in their place.

use vstd::prelude::*;
use crate::error::Error;

verus! {

/// The command lines of the outside programs.
#[derive(Debug, Clone, PartialEq, Eq)]
pub struct Tools {
    /// Prints the libraries that a program needs; takes the program's path.
    pub inspector: String,
    /// Finds the packages that hold a file; takes the arguments that
    /// `index_arguments` gives.
    pub index: String,
    /// Builds the sandbox from the definition that follows it on its
    /// command line.
    pub builder: String,
}

impl Default for Tools {
    fn default() -> (tools: Tools)
        ensures
            tools.inspector@ == "ldd"@,
            tools.index@ == "nix-locate"@,
            tools.builder@ == "nix-build --no-out-link -E"@,
    {
        Tools {
            inspector: String::from_str("ldd"),
            index: String::from_str("nix-locate"),
            builder: String::from_str("nix-build --no-out-link -E"),
        }
    }
}

/// The arguments with which the index is asked for `library`.
pub open spec fn index_query(library: Seq<char>) -> Seq<Seq<char>> {
    seq!["--top-level"@, "--type=r"@, "--type=s"@, "--type=x"@, "--whole-name"@, library]
}

/// What is wrong with a program that ended with `status`.
pub open spec fn failure_text(status: Seq<char>) -> Seq<char> {
    "returned error code "@ + status
}

/// `e` tells that `tool` failed for `reason`.
pub open spec fn is_tool_failure(e: Error, tool: Seq<char>, reason: Seq<char>) -> bool {
    match e {
        Error::ExternalTool { tool: named, reason: given } => named@ == tool && given@ == reason,
        _ => false,
    }
}

/// Makes the arguments with which the index is asked for the packages that
/// hold a file named `library`: top-level packages only; regular files,
/// symbolic links and executables only; and the whole name has to match.
pub fn index_arguments(library: &str) -> (arguments: Vec<String>)
    ensures
        arguments.deep_view() == index_query(library@),
{
    let mut arguments: Vec<String> = Vec::new();
    arguments.push(String::from_str("--top-level"));
    arguments.push(String::from_str("--type=r"));
    arguments.push(String::from_str("--type=s"));
    arguments.push(String::from_str("--type=x"));
    arguments.push(String::from_str("--whole-name"));
    arguments.push(String::from_str(library));
    proof {
        assert(arguments.deep_view() =~= index_query(library@));
    }
    arguments
}

/// The failure of a program that could not be started.
pub fn unavailable(tool: &str) -> (e: Error)
    ensures
        is_tool_failure(e, tool@, "could not be executed"@),
{
    Error::ExternalTool {
        tool: String::from_str(tool),
        reason: String::from_str("could not be executed"),
    }
}

/// Judges how a program ended: anything but success is a failure, which
/// names the program and the status, written out, with which it ended.
pub fn finished(tool: &str, success: bool, status: &str) -> (r: Result<(), Error>)
    ensures
        r is Ok <==> success,
        r matches Err(e) ==> is_tool_failure(e, tool@, failure_text(status@)),
{
    if success {
        Ok(())
    } else {
        Err(
            Error::ExternalTool {
                tool: String::from_str(tool),
                reason: String::from_str("returned error code ").concat(status),
            },
        )
    }
}

} // verus!
