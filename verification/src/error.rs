//! The error type of the library.
use anyhow::Error as AnyhowError;
use std::io::Error as IoError;
use vstd::prelude::*;

verus! {

#[verifier::external_type_specification]
#[verifier::external_body]
pub struct ExIoError(IoError);

#[verifier::external_type_specification]
#[verifier::external_body]
pub struct ExAnyhowError(AnyhowError);

/// Everything that can make a backup or a restore fail. Paths are carried as
/// UTF-8 strings.
#[derive(Debug)]
pub enum Error {
    Io(IoError),
    Walk(String),
    Archive(String),
    Encrypt(String),
    GitMeta { path: String, message: String },
    Manifest(String),
    Restore(String),
    OutputInsideTarget { output: String, target: String },
    UserAbort,
    Config(String),
    Other(AnyhowError),
}

/// Wraps an I/O error.
pub fn io_err(e: IoError) -> (r: Error)
    ensures
        r == Error::Io(e),
{
    Error::Io(e)
}

} // verus!
