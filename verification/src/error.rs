//! What can go wrong during a cleanup.
use vstd::prelude::*;

verus! {

/// `std::io::Error`, carried unchanged from the system call that failed.
#[verifier::external_type_specification]
#[verifier::external_body]
pub struct ExIoError(std::io::Error);

/// Why a pattern could not be compiled.
#[derive(Debug)]
pub enum PatternError {
    /// The pattern breaks the syntax of regular expressions.
    Syntax(String),
    /// The compiled pattern exceeds this size limit, in bytes.
    CompiledTooBig(usize),
}

/// A failed cleanup.
#[derive(Debug)]
pub enum JanitorError {
    /// An input or output operation failed.
    Io(std::io::Error),
    /// A configuration line is not a usable pattern.
    Regex(PatternError),
    /// An external command failed; the text says how.
    Command(String),
    /// This directory holds no kernel directory.
    NoKernelDir(String),
    /// This path has no text form.
    InvalidPath(String),
    /// This configuration file could not be read.
    ConfigRead(String, std::io::Error),
}

} // verus!
