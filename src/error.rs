use vstd::prelude::*;

verus! {

/// The closed set of failure kinds of the library.
#[derive(Clone, Copy, Debug, PartialEq, Eq, Structural)]
pub enum BootError {
    /// No entry or file of the requested name.
    NotFound,
    /// An archive header declares a payload that runs past the end of the archive.
    Corrupted,
    /// Opening, seeking or reading the storage failed.
    IoError,
    /// A bulk transfer failed.
    TransferError,
    /// An identity symbol lies outside the alphabet.
    DecodeError,
    /// Neither an archive nor a directory was configured.
    SourceNotConfigured,
}

/// The bytes of a result, as a sequence.
pub open spec fn bytes_result(r: Result<Vec<u8>, BootError>) -> Result<Seq<u8>, BootError> {
    match r {
        Ok(v) => Ok(v@),
        Err(e) => Err(e),
    }
}

} // verus!
