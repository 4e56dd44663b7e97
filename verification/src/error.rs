use vstd::prelude::*;

verus! {

/// `std::io::Error`, carried through as it is.
#[verifier::external_type_specification]
#[verifier::external_body]
pub struct ExIoError(std::io::Error);

/// The errors of the dictionary tools.
#[derive(Debug)]
pub enum WikiDictError {
    /// A read, a write or a decompression failed.
    Io(std::io::Error),
    /// A dump held something that could not be parsed.
    Parse(String),
}

} // verus!
