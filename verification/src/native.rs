//! What the C interface answers: codes and value structs.

use vstd::prelude::*;

use crate::error::VaultError;
use crate::text::{
    ascii_bytes, error_name, format_uuid_hex, parse_file_id, parsed_file_id, uuid_text,
};
use crate::types::{BlobId, FileId, VaultId};
use crate::vault::{LocatedChunk, LocatedChunkEntry, VaultConfig};

verus! {

pub const VAULTBLOB_OK: i32 = 0;

pub const VAULTBLOB_ERR_IO: i32 = -1;

pub const VAULTBLOB_ERR_AEAD_DECRYPT: i32 = -2;

pub const VAULTBLOB_ERR_AEAD_ENCRYPT: i32 = -3;

pub const VAULTBLOB_ERR_INDEX_CHAIN: i32 = -4;

pub const VAULTBLOB_ERR_TAIL_HASH: i32 = -5;

pub const VAULTBLOB_ERR_INDEX_MAC: i32 = -6;

pub const VAULTBLOB_ERR_NO_LOCATOR: i32 = -7;

pub const VAULTBLOB_ERR_INVALID_KEY: i32 = -8;

pub const VAULTBLOB_ERR_INVALID_CFG: i32 = -9;

pub const VAULTBLOB_ERR_INVALID_CHUNK: i32 = -10;

pub const VAULTBLOB_ERR_FILE_NOT_FOUND: i32 = -11;

pub const VAULTBLOB_ERR_INCOMPLETE: i32 = -12;

pub const VAULTBLOB_ERR_FILE_EXISTS: i32 = -13;

pub const VAULTBLOB_ERR_HASH_MISMATCH: i32 = -14;

pub const VAULTBLOB_ERR_BLOB_NOT_FOUND: i32 = -15;

pub const VAULTBLOB_ERR_NO_WRITABLE: i32 = -16;

pub const VAULTBLOB_ERR_EXCEEDS_CAP: i32 = -17;

pub const VAULTBLOB_ERR_INT_OVERFLOW: i32 = -18;

pub const VAULTBLOB_ERR_UNSUPPORTED: i32 = -19;

pub const VAULTBLOB_ERR_RETRY_EXCEEDED: i32 = -20;

pub const VAULTBLOB_ERR_INVALID_SESSION: i32 = -21;

pub const VAULTBLOB_ERR_BUF_TOO_SMALL: i32 = -23;

pub const VAULTBLOB_ERR_INVALID_ARG: i32 = -24;

/// The code of an error.
pub open spec fn code_of(error: VaultError) -> i32 {
    match error {
        VaultError::Io(_) => VAULTBLOB_ERR_IO,
        VaultError::AeadDecryptFailed => VAULTBLOB_ERR_AEAD_DECRYPT,
        VaultError::AeadEncryptFailed => VAULTBLOB_ERR_AEAD_ENCRYPT,
        VaultError::IndexChainBroken => VAULTBLOB_ERR_INDEX_CHAIN,
        VaultError::TailHashMismatch => VAULTBLOB_ERR_TAIL_HASH,
        VaultError::IndexMacMismatch => VAULTBLOB_ERR_INDEX_MAC,
        VaultError::NoValidLocator => VAULTBLOB_ERR_NO_LOCATOR,
        VaultError::InvalidMasterKey => VAULTBLOB_ERR_INVALID_KEY,
        VaultError::InvalidConfig => VAULTBLOB_ERR_INVALID_CFG,
        VaultError::InvalidChunkSize => VAULTBLOB_ERR_INVALID_CHUNK,
        VaultError::FileNotFound => VAULTBLOB_ERR_FILE_NOT_FOUND,
        VaultError::IncompleteFile => VAULTBLOB_ERR_INCOMPLETE,
        VaultError::FileAlreadyExists => VAULTBLOB_ERR_FILE_EXISTS,
        VaultError::FileHashMismatch => VAULTBLOB_ERR_HASH_MISMATCH,
        VaultError::BlobNotFound => VAULTBLOB_ERR_BLOB_NOT_FOUND,
        VaultError::NoWritableBlob => VAULTBLOB_ERR_NO_WRITABLE,
        VaultError::FileExceedsBlobCapacity => VAULTBLOB_ERR_EXCEEDS_CAP,
        VaultError::IntegerOverflow => VAULTBLOB_ERR_INT_OVERFLOW,
        VaultError::UnsupportedPlatform => VAULTBLOB_ERR_UNSUPPORTED,
        VaultError::RetryBudgetExceeded => VAULTBLOB_ERR_RETRY_EXCEEDED,
    }
}

/// The code of an error.
pub fn vault_error_code(err: &VaultError) -> (r: i32)
    ensures
        r == code_of(*err),
{
    match err {
        VaultError::Io(_) => VAULTBLOB_ERR_IO,
        VaultError::AeadDecryptFailed => VAULTBLOB_ERR_AEAD_DECRYPT,
        VaultError::AeadEncryptFailed => VAULTBLOB_ERR_AEAD_ENCRYPT,
        VaultError::IndexChainBroken => VAULTBLOB_ERR_INDEX_CHAIN,
        VaultError::TailHashMismatch => VAULTBLOB_ERR_TAIL_HASH,
        VaultError::IndexMacMismatch => VAULTBLOB_ERR_INDEX_MAC,
        VaultError::NoValidLocator => VAULTBLOB_ERR_NO_LOCATOR,
        VaultError::InvalidMasterKey => VAULTBLOB_ERR_INVALID_KEY,
        VaultError::InvalidConfig => VAULTBLOB_ERR_INVALID_CFG,
        VaultError::InvalidChunkSize => VAULTBLOB_ERR_INVALID_CHUNK,
        VaultError::FileNotFound => VAULTBLOB_ERR_FILE_NOT_FOUND,
        VaultError::IncompleteFile => VAULTBLOB_ERR_INCOMPLETE,
        VaultError::FileAlreadyExists => VAULTBLOB_ERR_FILE_EXISTS,
        VaultError::FileHashMismatch => VAULTBLOB_ERR_HASH_MISMATCH,
        VaultError::BlobNotFound => VAULTBLOB_ERR_BLOB_NOT_FOUND,
        VaultError::NoWritableBlob => VAULTBLOB_ERR_NO_WRITABLE,
        VaultError::FileExceedsBlobCapacity => VAULTBLOB_ERR_EXCEEDS_CAP,
        VaultError::IntegerOverflow => VAULTBLOB_ERR_INT_OVERFLOW,
        VaultError::UnsupportedPlatform => VAULTBLOB_ERR_UNSUPPORTED,
        VaultError::RetryBudgetExceeded => VAULTBLOB_ERR_RETRY_EXCEEDED,
    }
}

/// Every error has a code of its own, and none has the code of success.
pub proof fn law_error_codes_differ(a: VaultError, b: VaultError)
    ensures
        code_of(a) < VAULTBLOB_OK,
        code_of(a) == code_of(b) ==> error_name(a) == error_name(b),
{
}

/// A code alone.
#[allow(non_camel_case_types)]
#[derive(Clone, Copy, Debug)]
pub struct vaultblob_result_t {
    pub code: i32,
}

/// A code and a number.
#[allow(non_camel_case_types)]
#[derive(Clone, Copy, Debug)]
pub struct vaultblob_u64_result_t {
    pub code: i32,
    pub value: u64,
}

/// A code and a size in memory.
#[allow(non_camel_case_types)]
#[derive(Clone, Copy, Debug)]
pub struct vaultblob_size_result_t {
    pub code: i32,
    pub value: usize,
}

/// A code and an identity in its usual form.
#[allow(non_camel_case_types)]
#[derive(Clone, Copy, Debug)]
pub struct vaultblob_hex_result_t {
    pub code: i32,
    pub value: [u8; 37],
}

/// What is known of a chunk.
#[allow(non_camel_case_types)]
#[derive(Clone, Copy, Debug)]
pub struct vaultblob_chunk_info_t {
    pub blob_id_hex: [u8; 37],
    pub sequence_number: u64,
    pub offset_in_blob: u64,
    pub plaintext_length: u64,
    pub content_hash: [u8; 32],
}

/// A code and what is known of a chunk.
#[allow(non_camel_case_types)]
#[derive(Clone, Copy, Debug)]
pub struct vaultblob_chunk_info_result_t {
    pub code: i32,
    pub value: vaultblob_chunk_info_t,
}

/// Thirty-seven zeros.
pub open spec fn no_hex() -> Seq<u8> {
    Seq::new(37, |i: int| 0u8)
}

/// An identity in its usual form, with a zero behind it.
pub open spec fn id_hex(id: Seq<u8>) -> Seq<u8> {
    ascii_bytes(uuid_text(id)).push(0)
}

/// Reads a file's identity.
pub fn parse_file_id_from_str(s: &str) -> (r: Result<FileId, i32>)
    ensures
        match parsed_file_id(s@) {
            Some(id) => r is Ok && r->Ok_0@ == id,
            None => r == Err::<FileId, i32>(VAULTBLOB_ERR_FILE_NOT_FOUND),
        },
{
    match parse_file_id(s) {
        Ok(id) => Ok(id),
        Err(_) => Err(VAULTBLOB_ERR_FILE_NOT_FOUND),
    }
}

/// A text that a caller hands over.
pub enum TextArgument<'a> {
    /// There is none.
    Missing,
    /// It is no text.
    Invalid,
    Text(&'a str),
}

/// The text, or the code of its absence.
pub open spec fn given_text(argument: TextArgument) -> Result<Seq<char>, i32> {
    match argument {
        TextArgument::Text(text) => Ok(text@),
        _ => Err(VAULTBLOB_ERR_INVALID_ARG),
    }
}

/// The text, or the code of its absence.
pub fn text_argument<'a>(argument: TextArgument<'a>) -> (r: Result<&'a str, i32>)
    ensures
        match r {
            Ok(text) => given_text(argument) == Ok::<Seq<char>, i32>(text@),
            Err(code) => given_text(argument) == Err::<Seq<char>, i32>(code),
        },
{
    match argument {
        TextArgument::Text(text) => Ok(text),
        _ => Err(VAULTBLOB_ERR_INVALID_ARG),
    }
}

/// The file that an argument names, or the code of the refusal.
pub open spec fn named_file(argument: TextArgument) -> Result<Seq<u8>, i32> {
    match given_text(argument) {
        Err(code) => Err(code),
        Ok(text) => match parsed_file_id(text) {
            Some(id) => Ok(id),
            None => Err(VAULTBLOB_ERR_FILE_NOT_FOUND),
        },
    }
}

/// The file that an argument names.
pub fn file_id_argument(argument: TextArgument) -> (r: Result<FileId, i32>)
    ensures
        match r {
            Ok(file_id) => named_file(argument) == Ok::<Seq<u8>, i32>(file_id@),
            Err(code) => named_file(argument) == Err::<Seq<u8>, i32>(code),
        },
{
    match text_argument(argument) {
        Ok(text) => parse_file_id_from_str(text),
        Err(code) => Err(code),
    }
}

/// What the arguments of storing a file ask for.
#[derive(Clone, Copy, Debug)]
pub struct PutArguments {
    /// The identity that the file is to have; one is drawn where there is none.
    pub file_id: Option<FileId>,
    /// Whether there are contents at all.
    pub has_contents: bool,
}

/// Why the arguments of storing a file are refused: the identity is looked at first.
pub open spec fn put_refusal(
    file_id: TextArgument,
    contents_missing: bool,
    contents_len: usize,
) -> Option<i32> {
    if !(file_id is Missing) && named_file(file_id) is Err {
        Some(named_file(file_id)->Err_0)
    } else if contents_missing && contents_len > 0 {
        Some(VAULTBLOB_ERR_INVALID_ARG)
    } else {
        None
    }
}

/// What the arguments of storing a file ask for.
pub fn put_arguments(file_id: TextArgument, contents_missing: bool, contents_len: usize) -> (r:
    Result<PutArguments, i32>)
    ensures
        match put_refusal(file_id, contents_missing, contents_len) {
            Some(code) => r == Err::<PutArguments, i32>(code),
            None => {
                &&& r is Ok
                &&& r->Ok_0.has_contents == !contents_missing
                &&& r->Ok_0.file_id is None <==> file_id is Missing
                &&& r->Ok_0.file_id is Some ==> named_file(file_id) == Ok::<Seq<u8>, i32>(
                    r->Ok_0.file_id->0@,
                )
            },
        },
{
    let given = match file_id {
        TextArgument::Missing => None,
        _ => match file_id_argument(file_id) {
            Ok(id) => Some(id),
            Err(code) => return Err(code),
        },
    };
    if contents_missing && contents_len > 0 {
        return Err(VAULTBLOB_ERR_INVALID_ARG);
    }
    Ok(PutArguments { file_id: given, has_contents: !contents_missing })
}

/// Whether a read only asks how large its buffer has to be.
pub fn is_probe(buffer_missing: bool, buffer_len: usize) -> (r: bool)
    ensures
        r == (buffer_missing || buffer_len == 0),
{
    buffer_missing || buffer_len == 0
}

/// The policy that a session is opened with.
pub fn session_config(
    max_chunk_size: u64,
    max_blob_size: u64,
    split_files: i32,
    stripe_chunks: i32,
) -> (r: VaultConfig)
    ensures
        r == (VaultConfig {
            max_chunk_size: max_chunk_size as usize,
            max_blob_size,
            split_files_across_blobs: split_files != 0,
            stripe_chunks_across_blobs: stripe_chunks != 0,
            cache_indexes_on_open: true,
        }),
{
    VaultConfig {
        max_chunk_size: max_chunk_size as usize,
        max_blob_size,
        split_files_across_blobs: split_files != 0,
        stripe_chunks_across_blobs: stripe_chunks != 0,
        cache_indexes_on_open: true,
    }
}

/// What storing a file answers: its identity, where it was stored.
pub fn put_file_answer(file_id: FileId, outcome: &Result<(), VaultError>) -> (r:
    vaultblob_hex_result_t)
    ensures
        match *outcome {
            Ok(()) => r.code == VAULTBLOB_OK && r.value@ == id_hex(file_id@),
            Err(error) => r.code == code_of(error) && r.value@ == no_hex(),
        },
{
    match outcome {
        Ok(()) => vaultblob_hex_result_t {
            code: VAULTBLOB_OK,
            value: format_uuid_hex(&file_id.0),
        },
        Err(error) => refused_hex(vault_error_code(error)),
    }
}

/// A code without an identity.
pub fn refused_hex(code: i32) -> (r: vaultblob_hex_result_t)
    ensures
        r.code == code,
        r.value@ == no_hex(),
{
    let value: [u8; 37] = [0u8; 37];
    assert(value@ =~= no_hex());
    vaultblob_hex_result_t { code, value }
}

/// What asking for a file's size answers.
pub fn file_size_answer(outcome: &Result<u64, VaultError>) -> (r: vaultblob_u64_result_t)
    ensures
        r == match *outcome {
            Ok(size) => (vaultblob_u64_result_t { code: VAULTBLOB_OK, value: size }),
            Err(error) => (vaultblob_u64_result_t { code: code_of(error), value: 0 }),
        },
{
    match outcome {
        Ok(size) => vaultblob_u64_result_t { code: VAULTBLOB_OK, value: *size },
        Err(error) => vaultblob_u64_result_t { code: vault_error_code(error), value: 0 },
    }
}

/// What reading a file answers where no buffer was given: the size that it has to have.
pub fn read_file_probe(size: &Result<u64, VaultError>) -> (r: vaultblob_u64_result_t)
    ensures
        r == match *size {
            Ok(size) => (vaultblob_u64_result_t {
                code: VAULTBLOB_ERR_BUF_TOO_SMALL,
                value: size,
            }),
            Err(error) => (vaultblob_u64_result_t { code: code_of(error), value: 0 }),
        },
{
    match size {
        Ok(size) => vaultblob_u64_result_t { code: VAULTBLOB_ERR_BUF_TOO_SMALL, value: *size },
        Err(error) => vaultblob_u64_result_t { code: vault_error_code(error), value: 0 },
    }
}

/// What reading a file answers: how many bytes go into the buffer, or how many it lacks room for.
pub fn read_file_answer(outcome: &Result<Vec<u8>, VaultError>, buffer_len: usize) -> (r:
    vaultblob_u64_result_t)
    ensures
        r == match *outcome {
            Ok(data) => (vaultblob_u64_result_t {
                code: if data@.len() > buffer_len {
                    VAULTBLOB_ERR_BUF_TOO_SMALL
                } else {
                    VAULTBLOB_OK
                },
                value: data@.len() as u64,
            }),
            Err(error) => (vaultblob_u64_result_t { code: code_of(error), value: 0 }),
        },
{
    match outcome {
        Ok(data) => {
            let code: i32 = if data.len() > buffer_len {
                VAULTBLOB_ERR_BUF_TOO_SMALL
            } else {
                VAULTBLOB_OK
            };
            vaultblob_u64_result_t { code, value: data.len() as u64 }
        },
        Err(error) => vaultblob_u64_result_t { code: vault_error_code(error), value: 0 },
    }
}

/// How many bytes a range of a file has: what there is from `offset` on, but no more than `length`
/// unless that is zero.
pub open spec fn range_size(size: u64, offset: u64, length: u64) -> u64 {
    let available = if size > offset {
        (size - offset) as u64
    } else {
        0
    };
    if length == 0 || available < length {
        available
    } else {
        length
    }
}

/// What reading a range answers where no buffer was given: the size that it has to have.
pub fn read_range_probe(size: &Result<u64, VaultError>, offset: u64, length: u64) -> (r:
    vaultblob_u64_result_t)
    ensures
        r == match *size {
            Ok(size) => (vaultblob_u64_result_t {
                code: VAULTBLOB_ERR_BUF_TOO_SMALL,
                value: range_size(size, offset, length),
            }),
            Err(error) => (vaultblob_u64_result_t { code: code_of(error), value: 0 }),
        },
{
    match size {
        Ok(size) => {
            let available: u64 = if *size > offset {
                *size - offset
            } else {
                0
            };
            let value: u64 = if length == 0 || available < length {
                available
            } else {
                length
            };
            vaultblob_u64_result_t { code: VAULTBLOB_ERR_BUF_TOO_SMALL, value }
        },
        Err(error) => vaultblob_u64_result_t { code: vault_error_code(error), value: 0 },
    }
}

/// What reading a range answers: how many bytes go into the buffer, which may be too short for all.
pub fn read_range_answer(outcome: &Result<Vec<u8>, VaultError>, buffer_len: usize) -> (r:
    vaultblob_u64_result_t)
    ensures
        r == match *outcome {
            Ok(data) => (vaultblob_u64_result_t {
                code: VAULTBLOB_OK,
                value: if data@.len() < buffer_len {
                    data@.len() as u64
                } else {
                    buffer_len as u64
                },
            }),
            Err(error) => (vaultblob_u64_result_t { code: code_of(error), value: 0 }),
        },
{
    match outcome {
        Ok(data) => {
            let value: u64 = if data.len() < buffer_len {
                data.len() as u64
            } else {
                buffer_len as u64
            };
            vaultblob_u64_result_t { code: VAULTBLOB_OK, value }
        },
        Err(error) => vaultblob_u64_result_t { code: vault_error_code(error), value: 0 },
    }
}

/// What asking for the vault's identity answers.
pub fn vault_id_answer(vault_id: VaultId) -> (r: vaultblob_hex_result_t)
    ensures
        r.code == VAULTBLOB_OK,
        r.value@ == id_hex(vault_id@),
{
    vaultblob_hex_result_t { code: VAULTBLOB_OK, value: format_uuid_hex(&vault_id.0) }
}

/// What asking for a blob's identity answers.
pub fn blob_id_answer(ids: &Vec<BlobId>, index: usize) -> (r: vaultblob_hex_result_t)
    ensures
        if index < ids@.len() {
            r.code == VAULTBLOB_OK && r.value@ == id_hex(ids@[index as int]@)
        } else {
            r.code == VAULTBLOB_ERR_BLOB_NOT_FOUND && r.value@ == no_hex()
        },
{
    if index < ids.len() {
        vaultblob_hex_result_t { code: VAULTBLOB_OK, value: format_uuid_hex(&ids[index].0) }
    } else {
        refused_hex(VAULTBLOB_ERR_BLOB_NOT_FOUND)
    }
}

/// What asking for the number of a file's chunks answers.
pub fn chunk_count_answer(chunks: &Result<Vec<LocatedChunkEntry>, VaultError>) -> (r:
    vaultblob_size_result_t)
    ensures
        r == match *chunks {
            Ok(chunks) => (vaultblob_size_result_t {
                code: VAULTBLOB_OK,
                value: chunks@.len() as usize,
            }),
            Err(error) => (vaultblob_size_result_t { code: code_of(error), value: 0 }),
        },
{
    match chunks {
        Ok(chunks) => vaultblob_size_result_t { code: VAULTBLOB_OK, value: chunks.len() },
        Err(error) => vaultblob_size_result_t { code: vault_error_code(error), value: 0 },
    }
}

/// The info says what is known of the chunk.
pub open spec fn describes(info: vaultblob_chunk_info_t, chunk: LocatedChunk) -> bool {
    &&& info.blob_id_hex@ == id_hex(chunk.blob_id)
    &&& info.sequence_number == chunk.entry.sequence_number
    &&& info.offset_in_blob == chunk.entry.offset_in_blob
    &&& info.plaintext_length == chunk.entry.plaintext_length
    &&& info.content_hash@ == chunk.entry.content_hash
}

/// The info says nothing: all of it is zero.
pub open spec fn says_nothing(info: vaultblob_chunk_info_t) -> bool {
    &&& info.blob_id_hex@ == no_hex()
    &&& info.sequence_number == 0
    &&& info.offset_in_blob == 0
    &&& info.plaintext_length == 0
    &&& info.content_hash@ == Seq::new(32, |i: int| 0u8)
}

/// A code without a chunk.
pub fn refused_chunk(code: i32) -> (r: vaultblob_chunk_info_result_t)
    ensures
        r.code == code,
        says_nothing(r.value),
{
    let blob_id_hex: [u8; 37] = [0u8; 37];
    let content_hash: [u8; 32] = [0u8; 32];
    assert(blob_id_hex@ =~= no_hex());
    assert(content_hash@ =~= Seq::new(32, |i: int| 0u8));
    vaultblob_chunk_info_result_t {
        code,
        value: vaultblob_chunk_info_t {
            blob_id_hex,
            sequence_number: 0,
            offset_in_blob: 0,
            plaintext_length: 0,
            content_hash,
        },
    }
}

/// What asking for one of a file's chunks answers.
pub fn chunk_answer(chunks: &Result<Vec<LocatedChunkEntry>, VaultError>, index: usize) -> (r:
    vaultblob_chunk_info_result_t)
    ensures
        match *chunks {
            Err(error) => r.code == code_of(error) && says_nothing(r.value),
            Ok(chunks) => if index < chunks@.len() {
                r.code == VAULTBLOB_OK && describes(r.value, chunks@[index as int]@)
            } else {
                r.code == VAULTBLOB_ERR_FILE_NOT_FOUND && says_nothing(r.value)
            },
        },
{
    match chunks {
        Err(error) => refused_chunk(vault_error_code(error)),
        Ok(chunks) => {
            if index >= chunks.len() {
                return refused_chunk(VAULTBLOB_ERR_FILE_NOT_FOUND);
            }
            let chunk = chunks[index];
            vaultblob_chunk_info_result_t {
                code: VAULTBLOB_OK,
                value: vaultblob_chunk_info_t {
                    blob_id_hex: format_uuid_hex(&chunk.blob_id.0),
                    sequence_number: chunk.entry.sequence_number,
                    offset_in_blob: chunk.entry.offset_in_blob,
                    plaintext_length: chunk.entry.plaintext_length,
                    content_hash: chunk.entry.content_hash,
                },
            }
        },
    }
}

} // verus!
