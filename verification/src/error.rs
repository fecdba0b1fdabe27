//! What can go wrong.

use vstd::prelude::*;

verus! {

/// The standard library's I/O error, carried through and never looked into.
#[verifier::external_type_specification]
#[verifier::external_body]
pub struct ExIoError(std::io::Error);

/// Everything an operation on a blob or a vault can fail with.
#[derive(Debug)]
pub enum VaultError {
    Io(std::io::Error),
    AeadDecryptFailed,
    AeadEncryptFailed,
    IndexChainBroken,
    TailHashMismatch,
    IndexMacMismatch,
    NoValidLocator,
    InvalidMasterKey,
    InvalidConfig,
    InvalidChunkSize,
    FileNotFound,
    IncompleteFile,
    FileAlreadyExists,
    FileHashMismatch,
    BlobNotFound,
    NoWritableBlob,
    /// A single write exceeds `max_blob_size` and cannot be split across blobs.
    FileExceedsBlobCapacity,
    IntegerOverflow,
    UnsupportedPlatform,
    RetryBudgetExceeded,
}

impl From<std::io::Error> for VaultError {
    fn from(error: std::io::Error) -> (r: VaultError) {
        VaultError::Io(error)
    }
}

impl vstd::std_specs::convert::FromSpecImpl<std::io::Error> for VaultError {
    open spec fn obeys_from_spec() -> bool {
        true
    }

    open spec fn from_spec(error: std::io::Error) -> VaultError {
        VaultError::Io(error)
    }
}

} // verus!
