//! What makes a directory a vault: the record of its identity, and the policy of its blobs.

use vstd::prelude::*;
use vstd::slice::slice_subrange;
use vstd::string::StringSliceAdditionalSpecFns;

use crate::blob::BlobConfig;
use crate::bytes::{append_bytes, copy_array, copy_bytes};
use crate::crypto::{argon2id, derive_master_key, random_array, PASSWORD_LIMIT};
use crate::error::VaultError;
use crate::types::{FileId, VaultId, VaultMasterKey};

verus! {

/// Bytes of the record: the vault's identity and the salt of its password.
pub const META_LEN: usize = 48;

/// The policy of the blobs in a vault directory.
pub fn blob_config(verbose: bool) -> (r: BlobConfig)
    ensures
        r.initial_leading_gap == 128 * 1024,
        r.initial_trailing_gap == 128 * 1024,
        r.relocation_leading_padding == 2 * 1024 * 1024,
        r.relocation_trailing_padding == 512 * 1024,
        r.reader_retry_budget == 3,
        r.diagnostics == verbose,
{
    BlobConfig {
        initial_leading_gap: 128 * 1024,
        initial_trailing_gap: 128 * 1024,
        relocation_leading_padding: 2 * 1024 * 1024,
        relocation_trailing_padding: 512 * 1024,
        reader_retry_budget: 3,
        diagnostics: verbose,
    }
}

/// What a record and a password open: the vault's identity and its master key.
pub open spec fn opened_meta(data: Seq<u8>, password: Seq<u8>) -> Result<
    (Seq<u8>, Seq<u8>),
    VaultError,
> {
    if data.len() != META_LEN {
        Err(VaultError::IndexChainBroken)
    } else if password.len() > PASSWORD_LIMIT {
        Err(VaultError::InvalidMasterKey)
    } else {
        Ok((data.take(16), argon2id(password, data.skip(16))))
    }
}

/// Reads the vault's identity from its record.
pub fn meta_vault_id(data: &[u8]) -> (r: Result<VaultId, VaultError>)
    ensures
        data@.len() == META_LEN ==> r is Ok && r->Ok_0@ == data@.take(16),
        data@.len() != META_LEN ==> r == Err::<VaultId, VaultError>(VaultError::IndexChainBroken),
{
    if data.len() != META_LEN {
        return Err(VaultError::IndexChainBroken);
    }
    Ok(VaultId(copy_array(data)))
}

/// Reads the record of a vault.
pub fn load_meta(data: &[u8], password: &str) -> (r: Result<(VaultId, VaultMasterKey), VaultError>)
    ensures
        match r {
            Ok((vault_id, master_key)) => opened_meta(data@, password.spec_bytes()) == Ok::<
                (Seq<u8>, Seq<u8>),
                VaultError,
            >((vault_id@, master_key@)),
            Err(error) => opened_meta(data@, password.spec_bytes()) == Err::<
                (Seq<u8>, Seq<u8>),
                VaultError,
            >(error),
        },
{
    let vault_id = match meta_vault_id(data) {
        Ok(vault_id) => vault_id,
        Err(error) => return Err(error),
    };
    let salt: [u8; 32] = copy_array(slice_subrange(data, 16, 48));
    assert(data@.subrange(16, 48).take(32) =~= data@.skip(16));
    match derive_master_key(password, &salt) {
        Ok(master_key) => Ok((vault_id, master_key)),
        Err(error) => Err(error),
    }
}

/// Draws the record of a new vault: an identity and a salt. Nothing is promised of it but its
/// length, since it is drawn at random.
pub fn draw_meta() -> (r: Vec<u8>)
    ensures
        r@.len() == META_LEN,
{
    let vault_id = random_vault_id();
    let salt: [u8; 32] = random_array();
    let mut meta: Vec<u8> = copy_bytes(&vault_id.0);
    append_bytes(&mut meta, &salt);
    meta
}

/// Draws the identity of a new file. Nothing is promised of it but its width, which is its type's.
pub fn random_file_id() -> FileId {
    FileId(random_array())
}

/// Draws the identity of a new vault. Nothing is promised of it but its width, which is its type's.
pub fn random_vault_id() -> VaultId {
    VaultId(random_array())
}

/// What is to be done after an attempt to store a file.
pub enum AfterPut {
    /// The file is stored.
    Stored,
    /// No blob has room: attach a new one and try again.
    AddBlob,
    /// It cannot be stored.
    Refused(VaultError),
}

/// What is to be done after an attempt to store a file.
pub fn after_put(outcome: Result<(), VaultError>) -> (r: AfterPut)
    ensures
        r == match outcome {
            Ok(()) => AfterPut::Stored,
            Err(VaultError::NoWritableBlob) => AfterPut::AddBlob,
            Err(error) => AfterPut::Refused(error),
        },
{
    match outcome {
        Ok(()) => AfterPut::Stored,
        Err(VaultError::NoWritableBlob) => AfterPut::AddBlob,
        Err(error) => AfterPut::Refused(error),
    }
}

} // verus!
