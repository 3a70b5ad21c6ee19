//! How talkative command output should be.

use vstd::prelude::*;

verus! {

/// Output detail level.
#[derive(Clone, Debug, Default)]
pub enum Verbosity {
    /// Only relevant information or errors.
    Quiet,
    /// The ordinary amount.
    #[default]
    Info,
    /// Everything, including debug detail.
    Verbose,
}

impl Verbosity {
    /// Whether this level is the verbose one.
    pub fn is_verbose(&self) -> (r: bool)
        ensures
            r == (self is Verbose),
    {
        match self {
            Verbosity::Verbose => true,
            _ => false,
        }
    }

    /// Whether this level is the quiet one.
    pub fn is_quiet(&self) -> (r: bool)
        ensures
            r == (self is Quiet),
    {
        match self {
            Verbosity::Quiet => true,
            _ => false,
        }
    }
}

} // verus!
