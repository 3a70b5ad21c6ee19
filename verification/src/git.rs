//! The version-control tool's command lines; the calls themselves are
//! made by the program around this library.

use vstd::prelude::*;
use crate::verbose::Verbosity;
use crate::cmd::{cmd_call_to_string, cmd_line};
use crate::strsort::strs_v;

verus! {

/// The version-control tool: which binary to call and how talkative to
/// be.
pub struct GitCommand {
    pub git_bin: String,
    pub verbosity: Verbosity,
}

impl GitCommand {
    /// A git command with the given binary name.
    pub fn with_bin(git_bin: String, verbosity: Verbosity) -> (r: GitCommand)
        ensures
            r.git_bin == git_bin,
            r.verbosity == verbosity,
    {
        GitCommand { git_bin, verbosity }
    }

    /// The string a call with these arguments would show as.
    pub fn call_to_string(&self, args: &Vec<String>) -> (r: String)
        ensures
            r@ == cmd_line(self.git_bin@, strs_v(args@)),
    {
        cmd_call_to_string(self.git_bin.as_str(), args)
    }

    /// The argument list that prints the current branch's name.
    pub fn current_branch_args(&self) -> (r: Vec<String>)
        ensures
            strs_v(r@) == seq!["rev-parse"@, "--abbrev-ref"@, "HEAD"@],
    {
        let mut r: Vec<String> = Vec::new();
        r.push(String::from_str("rev-parse"));
        r.push(String::from_str("--abbrev-ref"));
        r.push(String::from_str("HEAD"));
        proof {
            assert(strs_v(r@) =~= seq!["rev-parse"@, "--abbrev-ref"@, "HEAD"@]);
        }
        r
    }
}

} // verus!
