//! What callers of the library are told.

use vstd::arithmetic::div_mod::{lemma_fundamental_div_mod, lemma_mod_bound};
use vstd::prelude::*;
use vstd::string::StringSliceAdditionalSpecFns;

use crate::blob::{Blob, BlobConfig};
use crate::create::create_refusal;
use crate::crypto::argon2id;
use crate::directory::{after_put, blob_config, load_meta, meta_vault_id, AfterPut};
use crate::encoding::law_new_file_stands_so;
use crate::error::VaultError;
use crate::history::range_of;
use crate::index::estimate_index_bytes_for_file;
use crate::judging::{known, lemma_of_file_is_known};
use crate::native::{
    blob_id_answer, chunk_answer, chunk_count_answer, file_id_argument, file_size_answer, is_probe,
    put_arguments, put_file_answer, read_file_answer, read_file_probe, read_range_answer,
    read_range_probe, session_config, vault_error_code, vault_id_answer,
    vaultblob_chunk_info_result_t, vaultblob_hex_result_t, vaultblob_size_result_t,
    vaultblob_u64_result_t, PutArguments, TextArgument,
};
use crate::session::RefreshIndexes;
use crate::storage::{after_all, request_views, Request};
use crate::text::{format_vault_error, parsed_file_id, uuid_text};
use crate::types::{BlobId, FileId, VaultId, VaultMasterKey};
use crate::vault::{
    blob_views, located_chunk_views, LocatedChunkEntry, Vault, VaultConfig, VaultIndex,
};

verus! {

/// The code that stands for an error in the C interface.
pub proof fn law_error_has_its_code(error: VaultError, code: i32)
    requires
        call_ensures(vault_error_code, (&error,), code),
    ensures
        code == match error {
            VaultError::Io(_) => -1int,
            VaultError::AeadDecryptFailed => -2int,
            VaultError::AeadEncryptFailed => -3int,
            VaultError::IndexChainBroken => -4int,
            VaultError::TailHashMismatch => -5int,
            VaultError::IndexMacMismatch => -6int,
            VaultError::NoValidLocator => -7int,
            VaultError::InvalidMasterKey => -8int,
            VaultError::InvalidConfig => -9int,
            VaultError::InvalidChunkSize => -10int,
            VaultError::FileNotFound => -11int,
            VaultError::IncompleteFile => -12int,
            VaultError::FileAlreadyExists => -13int,
            VaultError::FileHashMismatch => -14int,
            VaultError::BlobNotFound => -15int,
            VaultError::NoWritableBlob => -16int,
            VaultError::FileExceedsBlobCapacity => -17int,
            VaultError::IntegerOverflow => -18int,
            VaultError::UnsupportedPlatform => -19int,
            VaultError::RetryBudgetExceeded => -20int,
        },
{
}

/// The answers to questions for a size are those of the library: the size, or the code of the error
/// and zero. A probe says that the buffer is too small, with the size that it has to have.
pub proof fn law_size_is_answered(
    outcome: Result<u64, VaultError>,
    code: i32,
    answer: vaultblob_u64_result_t,
    probe: vaultblob_u64_result_t,
)
    requires
        call_ensures(file_size_answer, (&outcome,), answer),
        call_ensures(read_file_probe, (&outcome,), probe),
        outcome is Err ==> call_ensures(vault_error_code, (&outcome->Err_0,), code),
    ensures
        match outcome {
            Ok(size) => answer.code == 0 && answer.value == size && probe.code == -23
                && probe.value == size,
            Err(_) => answer.code == code && answer.value == 0 && probe.code == code
                && probe.value == 0,
        },
{
}

/// Reading a file into a buffer succeeds exactly where the buffer holds all of it. Either way the
/// answer is how long the file is.
pub proof fn law_file_has_to_fit_the_buffer(
    outcome: Result<Vec<u8>, VaultError>,
    buffer_len: usize,
    code: i32,
    answer: vaultblob_u64_result_t,
)
    requires
        call_ensures(read_file_answer, (&outcome, buffer_len), answer),
        outcome is Err ==> call_ensures(vault_error_code, (&outcome->Err_0,), code),
    ensures
        match outcome {
            Ok(data) => answer.value == data@.len() as u64 && (answer.code == 0 <==> data@.len()
                <= buffer_len) && (answer.code == 0 || answer.code == -23),
            Err(_) => answer.code == code && answer.value == 0,
        },
{
}

/// Reading a range into a buffer gives as much of it as the buffer holds.
pub proof fn law_range_fills_the_buffer(
    outcome: Result<Vec<u8>, VaultError>,
    buffer_len: usize,
    code: i32,
    answer: vaultblob_u64_result_t,
)
    requires
        call_ensures(read_range_answer, (&outcome, buffer_len), answer),
        outcome is Err ==> call_ensures(vault_error_code, (&outcome->Err_0,), code),
        buffer_len <= u64::MAX,
    ensures
        match outcome {
            Ok(data) => answer.code == 0 && answer.value <= buffer_len && answer.value
                <= data@.len() && (answer.value == buffer_len || answer.value == data@.len()),
            Err(_) => answer.code == code && answer.value == 0,
        },
{
}

/// The probe of a range asks for as many bytes as the range of the contents has: as much as there
/// is from the offset on, unless a length is given and there is more.
pub proof fn law_probe_tells_the_length_of_the_range(
    contents: Seq<u8>,
    outcome: Result<u64, VaultError>,
    offset: u64,
    length: u64,
    code: i32,
    probe: vaultblob_u64_result_t,
)
    requires
        call_ensures(read_range_probe, (&outcome, offset, length), probe),
        outcome is Ok ==> outcome->Ok_0 == contents.len(),
        outcome is Err ==> call_ensures(vault_error_code, (&outcome->Err_0,), code),
    ensures
        match outcome {
            Ok(size) => probe.code == -23 && probe.value == range_of(
                contents,
                offset as int,
                if length == 0 {
                    contents.len() as int
                } else {
                    length as int
                },
            ).len(),
            Err(_) => probe.code == code && probe.value == 0,
        },
{
}

/// A read is a probe exactly where no byte could be put anywhere.
pub proof fn law_probe_has_no_room(buffer_missing: bool, buffer_len: usize, probe: bool)
    requires
        call_ensures(is_probe, (buffer_missing, buffer_len), probe),
    ensures
        !probe <==> !buffer_missing && buffer_len > 0,
{
}

/// The bytes are the identity in its usual form, with a zero behind it.
pub open spec fn spells(bytes: Seq<u8>, id: Seq<u8>) -> bool {
    &&& bytes.len() == uuid_text(id).len() + 1
    &&& bytes[bytes.len() - 1] == 0
    &&& forall|i: int| 0 <= i < bytes.len() - 1 ==> #[trigger] bytes[i] == uuid_text(id)[i] as u8
}

/// There is nothing but zeros.
pub open spec fn blank(bytes: Seq<u8>) -> bool {
    forall|i: int| 0 <= i < bytes.len() ==> #[trigger] bytes[i] == 0
}

/// Identities are answered in their usual form. Where there is none to tell, the answer is blank and
/// has the code of the reason.
pub proof fn law_identity_is_answered(
    file_id: FileId,
    outcome: Result<(), VaultError>,
    code: i32,
    stored: vaultblob_hex_result_t,
    vault_id: VaultId,
    vault: vaultblob_hex_result_t,
    ids: Vec<BlobId>,
    index: usize,
    blob: vaultblob_hex_result_t,
)
    requires
        call_ensures(put_file_answer, (file_id, &outcome), stored),
        outcome is Err ==> call_ensures(vault_error_code, (&outcome->Err_0,), code),
        call_ensures(vault_id_answer, (vault_id,), vault),
        call_ensures(blob_id_answer, (&ids, index), blob),
    ensures
        match outcome {
            Ok(()) => stored.code == 0 && spells(stored.value@, file_id@),
            Err(_) => stored.code == code && blank(stored.value@),
        },
        vault.code == 0 && spells(vault.value@, vault_id@),
        if index < ids@.len() {
            blob.code == 0 && spells(blob.value@, ids@[index as int]@)
        } else {
            blob.code == -15 && blank(blob.value@)
        },
{
}

/// The chunks of a file are counted and described one by one. Behind the last there is none.
pub proof fn law_chunks_are_answered(
    chunks: Result<Vec<LocatedChunkEntry>, VaultError>,
    index: usize,
    code: i32,
    count: vaultblob_size_result_t,
    answer: vaultblob_chunk_info_result_t,
)
    requires
        call_ensures(chunk_count_answer, (&chunks,), count),
        call_ensures(chunk_answer, (&chunks, index), answer),
        chunks is Err ==> call_ensures(vault_error_code, (&chunks->Err_0,), code),
    ensures
        chunks is Ok ==> count.code == 0 && count.value == chunks->Ok_0@.len() as usize,
        chunks is Err ==> count.code == code && count.value == 0 && answer.code == code,
        chunks is Ok && index < chunks->Ok_0@.len() ==> {
            let chunk = chunks->Ok_0@[index as int]@;
            &&& answer.code == 0
            &&& spells(answer.value.blob_id_hex@, chunk.blob_id)
            &&& answer.value.sequence_number == chunk.entry.sequence_number
            &&& answer.value.offset_in_blob == chunk.entry.offset_in_blob
            &&& answer.value.plaintext_length == chunk.entry.plaintext_length
            &&& answer.value.content_hash@ == chunk.entry.content_hash
        },
        chunks is Ok && index >= chunks->Ok_0@.len() ==> answer.code == -11,
        answer.code != 0 ==> blank(answer.value.blob_id_hex@) && answer.value.sequence_number == 0
            && answer.value.offset_in_blob == 0 && answer.value.plaintext_length == 0 && blank(
            answer.value.content_hash@,
        ),
{
}

/// A file is named by a text that holds its identity. Without a text the argument is wrong, and a
/// text that holds none names no file.
pub proof fn law_file_is_named(argument: TextArgument, r: Result<FileId, i32>)
    requires
        call_ensures(file_id_argument, (argument,), r),
    ensures
        argument is Text ==> match parsed_file_id(argument->Text_0@) {
            Some(id) => r is Ok && r->Ok_0@ == id,
            None => r is Err && r->Err_0 == -11,
        },
        !(argument is Text) ==> r is Err && r->Err_0 == -24,
{
}

/// A file is stored under the identity that is given, or under a new one where none is. It is
/// refused where the identity is, and where contents are promised that are not there.
pub proof fn law_put_is_asked_for(
    file_id: TextArgument,
    contents_missing: bool,
    contents_len: usize,
    named: Result<FileId, i32>,
    r: Result<PutArguments, i32>,
)
    requires
        call_ensures(file_id_argument, (file_id,), named),
        call_ensures(put_arguments, (file_id, contents_missing, contents_len), r),
    ensures
        !(file_id is Missing) && named is Err ==> r is Err && r->Err_0 == named->Err_0,
        (file_id is Missing || named is Ok) && contents_missing && contents_len > 0 ==> r is Err
            && r->Err_0 == -24,
        (file_id is Missing || named is Ok) && !(contents_missing && contents_len > 0) ==> {
            &&& r is Ok
            &&& r->Ok_0.has_contents <==> !contents_missing
            &&& file_id is Missing ==> r->Ok_0.file_id is None
            &&& !(file_id is Missing) ==> r->Ok_0.file_id is Some && r->Ok_0.file_id->0@
                == named->Ok_0@
        },
{
}

/// A session has the sizes that are asked for. Any number but zero switches a choice on, and indexes
/// are always read when a session is opened.
pub proof fn law_session_is_configured(
    max_chunk_size: u64,
    max_blob_size: u64,
    split_files: i32,
    stripe_chunks: i32,
    r: VaultConfig,
)
    requires
        call_ensures(
            session_config,
            (max_chunk_size, max_blob_size, split_files, stripe_chunks),
            r,
        ),
    ensures
        max_chunk_size <= usize::MAX ==> r.max_chunk_size == max_chunk_size,
        r.max_blob_size == max_blob_size,
        !r.split_files_across_blobs <==> split_files == 0,
        !r.stripe_chunks_across_blobs <==> stripe_chunks == 0,
        r.cache_indexes_on_open,
{
}

/// A file that finds no room in any blob asks for another blob, and only such a file does.
pub proof fn law_only_a_lack_of_room_adds_a_blob(outcome: Result<(), VaultError>, next: AfterPut)
    requires
        call_ensures(after_put, (outcome,), next),
    ensures
        next is Stored <==> outcome is Ok,
        next is AddBlob <==> outcome is Err && outcome->Err_0 is NoWritableBlob,
        next is Refused ==> outcome == Err::<(), VaultError>(next->Refused_0),
{
}

/// The blobs of a directory start with equal gaps of a hundred and twenty-eight kibibytes, move
/// their index by two mebibytes with half a mebibyte behind it, and their readers try again three
/// times. Such blobs can always be created.
pub proof fn law_directory_blobs_are_configured(verbose: bool, config: BlobConfig)
    requires
        call_ensures(blob_config, (verbose,), config),
    ensures
        config.initial_leading_gap == 131_072,
        config.initial_trailing_gap == 131_072,
        config.relocation_leading_padding == 2_097_152,
        config.relocation_trailing_padding == 524_288,
        config.reader_retry_budget == 3,
        config.diagnostics == verbose,
        create_refusal(config) is None,
{
}

/// The record of a vault is forty-eight bytes: the identity, then the salt with which the password
/// makes the master key.
pub proof fn law_record_opens(
    data: &[u8],
    password: &str,
    id: Result<VaultId, VaultError>,
    r: Result<(VaultId, VaultMasterKey), VaultError>,
)
    requires
        call_ensures(meta_vault_id, (data,), id),
        call_ensures(load_meta, (data, password), r),
    ensures
        data@.len() != 48 ==> id == Err::<VaultId, VaultError>(VaultError::IndexChainBroken) && r
            == Err::<(VaultId, VaultMasterKey), VaultError>(VaultError::IndexChainBroken),
        data@.len() == 48 ==> id is Ok && id->Ok_0@ == data@.subrange(0, 16),
        data@.len() == 48 && password.spec_bytes().len() <= 0xffff_ffff ==> {
            &&& r is Ok
            &&& r->Ok_0.0@ == data@.subrange(0, 16)
            &&& r->Ok_0.1@ == argon2id(password.spec_bytes(), data@.subrange(16, 48))
        },
        data@.len() == 48 && password.spec_bytes().len() > 0xffff_ffff ==> r == Err::<
            (VaultId, VaultMasterKey),
            VaultError,
        >(VaultError::InvalidMasterKey),
{
    if data@.len() == 48 {
        assert(data@.take(16) =~= data@.subrange(0, 16));
        assert(data@.skip(16) =~= data@.subrange(16, 48));
    }
}

/// A vault opens exactly where its sizes are not zero, it has a blob, and all of its blobs name it.
/// It then has these blobs in this order and knows of no file yet. The indexes are read where the
/// configuration asks for it, from the first blob on.
pub proof fn law_vault_opens(
    vault_id: VaultId,
    blobs: Vec<Blob>,
    config: VaultConfig,
    r: Result<(Vault, Option<RefreshIndexes>), VaultError>,
)
    requires
        call_ensures(Vault::open, (vault_id, blobs, config), r),
    ensures
        r is Ok <==> config.max_chunk_size > 0 && config.max_blob_size > 0 && blobs@.len() > 0
            && forall|i: int|
            0 <= i < blobs@.len() ==> (#[trigger] blobs@[i]).vault_id@ == vault_id@,
        r is Err ==> r->Err_0 == VaultError::InvalidConfig,
        r is Ok ==> {
            let vault = r->Ok_0.0;
            &&& vault@.vault_id == vault_id@
            &&& vault@.config == config
            &&& vault@.blobs.len() == blobs@.len()
            &&& forall|i: int| 0 <= i < blobs@.len() ==> vault@.blobs[i] == (#[trigger] blobs@[i])@
            &&& vault@.index.chunks.len() == 0
            &&& vault@.index.completed_files.len() == 0
            &&& vault@.cursor == 0
            &&& r->Ok_0.1 is Some <==> config.cache_indexes_on_open
            &&& r->Ok_0.1 is Some ==> r->Ok_0.1->0@.at == 0
        },
{
    let views = blob_views(blobs@);
    assert forall|i: int| 0 <= i < blobs@.len() implies views[i] == (#[trigger] blobs@[i])@ by {}
    if r is Err && blobs@.len() > 0 && config.max_chunk_size > 0 && config.max_blob_size > 0 {
        let i = choose|i: int| 0 <= i < views.len() && (#[trigger] views[i]).vault_id != vault_id@;
        assert(blobs@[i].vault_id@ != vault_id@);
    }
    if r is Ok {
        assert forall|i: int| 0 <= i < blobs@.len() implies (#[trigger] blobs@[i]).vault_id@
            == vault_id@ by {
            assert(views[i].vault_id == vault_id@);
        }
    }
}

/// A blob can be created exactly where its first file is no longer than a file can be and the
/// paddings of its index fit. It belongs to the vault and keeps its configuration, and carrying out
/// its requests leaves a file of the front matter and the two gaps.
pub proof fn law_blob_is_created(
    vault_id: VaultId,
    master_key: VaultMasterKey,
    config: BlobConfig,
    r: Result<(Blob, Vec<Request>), VaultError>,
    image: Seq<u8>,
)
    requires
        call_ensures(Blob::create_new, (vault_id, &master_key, config), r),
    ensures
        r is Ok <==> 4096 + config.initial_leading_gap + config.initial_trailing_gap <= u64::MAX
            && config.relocation_leading_padding + config.relocation_trailing_padding <= u64::MAX,
        r is Err ==> r->Err_0 == VaultError::IntegerOverflow,
        r is Ok ==> {
            let b = r->Ok_0.0@;
            let requests = request_views(r->Ok_0.1@);
            &&& b.vault_id == vault_id@
            &&& b.config == config
            &&& b.created_by(master_key@, requests)
            &&& after_all(image, requests).len() == 4096 + config.initial_leading_gap
                + config.initial_trailing_gap
        },
{
    if r is Ok {
        law_new_file_stands_so(
            r->Ok_0.0@,
            master_key@,
            request_views(r->Ok_0.1@),
            image,
        );
    }
}

/// An error is named as its variant is.
pub proof fn law_error_has_its_name(error: VaultError, name: &str)
    requires
        call_ensures(format_vault_error, (&error,), name),
    ensures
        name@ == match error {
            VaultError::Io(_) => "Io"@,
            VaultError::AeadDecryptFailed => "AeadDecryptFailed"@,
            VaultError::AeadEncryptFailed => "AeadEncryptFailed"@,
            VaultError::IndexChainBroken => "IndexChainBroken"@,
            VaultError::TailHashMismatch => "TailHashMismatch"@,
            VaultError::IndexMacMismatch => "IndexMacMismatch"@,
            VaultError::NoValidLocator => "NoValidLocator"@,
            VaultError::InvalidMasterKey => "InvalidMasterKey"@,
            VaultError::InvalidConfig => "InvalidConfig"@,
            VaultError::InvalidChunkSize => "InvalidChunkSize"@,
            VaultError::FileNotFound => "FileNotFound"@,
            VaultError::IncompleteFile => "IncompleteFile"@,
            VaultError::FileAlreadyExists => "FileAlreadyExists"@,
            VaultError::FileHashMismatch => "FileHashMismatch"@,
            VaultError::BlobNotFound => "BlobNotFound"@,
            VaultError::NoWritableBlob => "NoWritableBlob"@,
            VaultError::FileExceedsBlobCapacity => "FileExceedsBlobCapacity"@,
            VaultError::IntegerOverflow => "IntegerOverflow"@,
            VaultError::UnsupportedPlatform => "UnsupportedPlatform"@,
            VaultError::RetryBudgetExceeded => "RetryBudgetExceeded"@,
        },
{
}

/// A vault tells its identity, that of each of its blobs in their order, what it knows, and whether
/// any chunk of a file is known.
pub proof fn law_vault_tells_what_it_is(
    vault: Vault,
    id: VaultId,
    ids: Vec<BlobId>,
    index: &VaultIndex,
    file_id: FileId,
    knows: bool,
    size: Result<u64, VaultError>,
    chunks: Result<Vec<LocatedChunkEntry>, VaultError>,
)
    requires
        call_ensures(Vault::vault_id, (&vault,), id),
        call_ensures(Vault::blob_ids, (&vault,), ids),
        call_ensures(Vault::cached_index, (&vault,), index),
        call_ensures(VaultIndex::knows_file, (index, file_id), knows),
        call_ensures(Vault::file_size, (&vault, file_id), size),
        call_ensures(Vault::file_chunks, (&vault, file_id), chunks),
    ensures
        id@ == vault@.vault_id,
        ids@.len() == vault@.blobs.len(),
        forall|i: int| 0 <= i < ids@.len() ==> (#[trigger] ids@[i])@ == vault@.blobs[i].blob_id,
        index@ == vault@.index,
        knows <==> known(vault@.index.chunks, file_id@),
        size == vault@.index.size(file_id@),
        match vault@.index.ordered(file_id@) {
            Ok(list) => {
                &&& chunks is Ok
                &&& chunks->Ok_0@.len() == list.len()
                &&& forall|i: int|
                    0 <= i < list.len() ==> (#[trigger] chunks->Ok_0@[i])@ == list[i]
            },
            Err(error) => chunks == Err::<Vec<LocatedChunkEntry>, VaultError>(error),
        },
{
    lemma_of_file_is_known(vault@.index, file_id@);
    if chunks is Ok {
        let views = located_chunk_views(chunks->Ok_0@);
        assert forall|i: int| 0 <= i < chunks->Ok_0@.len() implies (
        #[trigger] chunks->Ok_0@[i])@ == views[i] by {}
    }
}

/// The index grows by seventy-three bytes for each chunk of a file and by fifty-seven for its
/// marker; the estimate for a file is that, or the largest number where it is greater. Chunks of no
/// bytes are counted as chunks of one.
pub proof fn law_index_growth_is_estimated(len: u64, size: u64, n: int, r: u64)
    requires
        call_ensures(estimate_index_bytes_for_file, (len, size), r),
        0 <= n,
        size > 0 ==> (n - 1) * size < len <= n * size,
        size == 0 ==> n == len,
    ensures
        r == if 73 * n + 57 <= u64::MAX {
            73 * n + 57
        } else {
            u64::MAX as int
        },
{
    if size > 0 {
        let l = len as int;
        let z = size as int;
        lemma_fundamental_div_mod(l, z);
        let q = l / z;
        let m = l % z;
        assert(0 <= m < z) by {
            lemma_mod_bound(l, z);
        }
        assert(n == if m == 0 {
            q
        } else {
            q + 1
        }) by (nonlinear_arith)
            requires
                l == z * q + m,
                0 <= m < z,
                (n - 1) * z < l <= n * z,
                z > 0,
        ;
    }
}

} // verus!
