//! What can go wrong.

use regex::Error as RegexError;
use vstd::prelude::*;

verus! {

/// The error type of the `regex` crate.
#[verifier::external_type_specification]
#[verifier::external_body]
pub struct ExRegexError(RegexError);

/// Why a script was refused or did not run to its end.
#[derive(Debug)]
pub enum Error {
    /// A pattern of the script is not a regular expression.
    Regex(RegexError),
    /// A line of the input is not UTF-8.
    InvalidUtf8,
    /// The script, or the command line, is malformed.
    Parse(String),
    /// The script quit with this exit status, which is not zero.
    Exit(i32),
    /// The script named this file, or this shell command, and only a host
    /// that drives the run step by step can serve it.
    External(String),
}

pub type Result<T, E = Error> = core::result::Result<T, E>;

} // verus!
