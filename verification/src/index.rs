//! The index of a blob: the entries it lists and the bytes that they stand as.
//!
//! An index is a sequence of entries, each behind a one-byte tag that fixes its length. The tag
//! `0x01` introduces a chunk, the tag `0x02` the completion of a file.

use vstd::bytes::{
    lemma_auto_spec_u64_to_from_le_bytes, spec_u64_from_le_bytes, spec_u64_to_le_bytes,
    u64_to_le_bytes,
};
use vstd::prelude::*;
use vstd::slice::slice_subrange;

use crate::bytes::{append_bytes, copy_array, read_u64};
use crate::error::VaultError;
use crate::types::{
    chunk_views, complete_views, BlobId, ChunkEntry, ChunkView, CompleteView, FileCompleteEntry,
    FileId, VaultId,
};

verus! {

/// Bytes of index plaintext per chunk entry (`0x01` tag + payload).
pub const INDEX_CHUNK_ENTRY_BYTES: u64 = 73;

/// Bytes of index plaintext per `file_complete` entry (`0x02` tag + payload).
pub const INDEX_FILE_COMPLETE_ENTRY_BYTES: u64 = 57;

/// Bytes of a chunk entry behind its tag.
pub const CHUNK_ENTRY_PAYLOAD_LEN: usize = 72;

/// Bytes of a `file_complete` entry behind its tag.
pub const FILE_COMPLETE_PAYLOAD_LEN: usize = 56;

/// One chunk to append in a transaction.
#[derive(Clone, Debug)]
pub struct NewChunk {
    pub file_id: FileId,
    pub sequence_number: u64,
    pub plaintext: Vec<u8>,
}

/// Optional file completion marker to append with a transaction.
#[derive(Clone, Copy, Debug)]
pub struct NewFileComplete {
    pub file_id: FileId,
    pub total_chunks: u64,
    pub full_content_hash: [u8; 32],
}

/// Decoded canonical index contents.
#[derive(Clone, Debug)]
pub struct BlobIndex {
    pub chunks: Vec<ChunkEntry>,
    pub completed_files: Vec<FileCompleteEntry>,
}

/// What a [`NewChunk`] says.
#[verifier::ext_equal]
pub struct NewChunkView {
    pub file_id: Seq<u8>,
    pub sequence_number: u64,
    pub plaintext: Seq<u8>,
}

/// What a [`BlobIndex`] lists, in the order of the index.
#[verifier::ext_equal]
pub struct IndexView {
    pub chunks: Seq<ChunkView>,
    pub completed_files: Seq<CompleteView>,
}

impl View for NewChunk {
    type V = NewChunkView;

    open spec fn view(&self) -> NewChunkView {
        NewChunkView {
            file_id: self.file_id@,
            sequence_number: self.sequence_number,
            plaintext: self.plaintext@,
        }
    }
}

impl View for NewFileComplete {
    type V = CompleteView;

    open spec fn view(&self) -> CompleteView {
        CompleteView {
            file_id: self.file_id@,
            total_chunks: self.total_chunks,
            full_content_hash: self.full_content_hash@,
        }
    }
}

impl View for BlobIndex {
    type V = IndexView;

    open spec fn view(&self) -> IndexView {
        IndexView {
            chunks: chunk_views(self.chunks@),
            completed_files: complete_views(self.completed_files@),
        }
    }
}

/// The views of a sequence of new chunks.
pub open spec fn new_chunk_views(chunks: Seq<NewChunk>) -> Seq<NewChunkView> {
    Seq::new(chunks.len(), |i: int| chunks[i]@)
}

/// The views of a sequence of new completion markers.
pub open spec fn new_complete_views(completes: Seq<NewFileComplete>) -> Seq<CompleteView> {
    Seq::new(completes.len(), |i: int| completes[i]@)
}

/// An index that lists nothing.
pub open spec fn empty_index() -> IndexView {
    IndexView { chunks: Seq::empty(), completed_files: Seq::empty() }
}

impl IndexView {
    /// This index with the entries of `more` behind its own.
    pub open spec fn concat(self, more: IndexView) -> IndexView {
        IndexView {
            chunks: self.chunks + more.chunks,
            completed_files: self.completed_files + more.completed_files,
        }
    }
}

impl Default for BlobIndex {
    fn default() -> (r: BlobIndex)
        ensures
            r@ == empty_index(),
    {
        let index = BlobIndex { chunks: Vec::new(), completed_files: Vec::new() };
        assert(index@ =~= empty_index());
        index
    }
}

/// The bytes of a chunk entry.
pub open spec fn chunk_entry_bytes(entry: ChunkView) -> Seq<u8> {
    seq![1u8] + entry.file_id + spec_u64_to_le_bytes(entry.sequence_number) + spec_u64_to_le_bytes(
        entry.offset_in_blob,
    ) + spec_u64_to_le_bytes(entry.plaintext_length) + entry.content_hash
}

/// The bytes of a completion entry.
pub open spec fn complete_entry_bytes(entry: CompleteView) -> Seq<u8> {
    seq![2u8] + entry.file_id + spec_u64_to_le_bytes(entry.total_chunks) + entry.full_content_hash
}

/// The bytes of a run of chunk entries.
pub open spec fn chunk_run_bytes(entries: Seq<ChunkView>) -> Seq<u8>
    decreases entries.len(),
{
    if entries.len() == 0 {
        Seq::empty()
    } else {
        chunk_run_bytes(entries.drop_last()) + chunk_entry_bytes(entries.last())
    }
}

/// The bytes of a run of completion entries.
pub open spec fn complete_run_bytes(entries: Seq<CompleteView>) -> Seq<u8>
    decreases entries.len(),
{
    if entries.len() == 0 {
        Seq::empty()
    } else {
        complete_run_bytes(entries.drop_last()) + complete_entry_bytes(entries.last())
    }
}

/// The bytes that one transaction appends to the index: its chunks, then its completions.
pub open spec fn transaction_bytes(index: IndexView) -> Seq<u8> {
    chunk_run_bytes(index.chunks) + complete_run_bytes(index.completed_files)
}

/// The chunk entry whose payload stands at the front of `bytes`.
pub open spec fn chunk_entry_at(bytes: Seq<u8>) -> ChunkView {
    ChunkView {
        file_id: bytes.subrange(0, 16),
        sequence_number: spec_u64_from_le_bytes(bytes.subrange(16, 24)),
        offset_in_blob: spec_u64_from_le_bytes(bytes.subrange(24, 32)),
        plaintext_length: spec_u64_from_le_bytes(bytes.subrange(32, 40)),
        content_hash: bytes.subrange(40, 72),
    }
}

/// The completion entry whose payload stands at the front of `bytes`.
pub open spec fn complete_entry_at(bytes: Seq<u8>) -> CompleteView {
    CompleteView {
        file_id: bytes.subrange(0, 16),
        total_chunks: spec_u64_from_le_bytes(bytes.subrange(16, 24)),
        full_content_hash: bytes.subrange(24, 56),
    }
}

/// What decoding found: the entries in front of the first byte that could not be decoded, and
/// whether there was no such byte.
#[verifier::ext_equal]
pub struct Decoded {
    pub index: IndexView,
    pub complete: bool,
}

impl Decoded {
    /// The same with one more chunk in front.
    pub open spec fn after_chunk(self, entry: ChunkView) -> Decoded {
        Decoded {
            index: (IndexView { chunks: seq![entry], completed_files: Seq::empty() }).concat(
                self.index,
            ),
            complete: self.complete,
        }
    }

    /// The same with one more completion in front.
    pub open spec fn after_complete(self, entry: CompleteView) -> Decoded {
        Decoded {
            index: (IndexView { chunks: Seq::empty(), completed_files: seq![entry] }).concat(
                self.index,
            ),
            complete: self.complete,
        }
    }
}

/// What the bytes of an index decode to. Decoding stops at an unknown tag and at an entry that
/// is cut short.
pub open spec fn decoded(bytes: Seq<u8>) -> Decoded
    decreases bytes.len(),
{
    if bytes.len() == 0 {
        Decoded { index: empty_index(), complete: true }
    } else if bytes[0] == 1 && bytes.len() >= INDEX_CHUNK_ENTRY_BYTES {
        decoded(bytes.skip(73)).after_chunk(chunk_entry_at(bytes.skip(1)))
    } else if bytes[0] == 2 && bytes.len() >= INDEX_FILE_COMPLETE_ENTRY_BYTES {
        decoded(bytes.skip(57)).after_complete(complete_entry_at(bytes.skip(1)))
    } else {
        Decoded { index: empty_index(), complete: false }
    }
}

/// Decodes an index and appends its entries to `index`. Where the bytes cannot be decoded to the
/// end, the entries in front of that place have been appended all the same.
pub fn parse_entries(plaintext: &[u8], index: &mut BlobIndex) -> (r: Result<(), VaultError>)
    ensures
        final(index)@ == old(index)@.concat(decoded(plaintext@).index),
        decoded(plaintext@).complete ==> r == Ok::<(), VaultError>(()),
        !decoded(plaintext@).complete ==> r == Err::<(), VaultError>(VaultError::IndexChainBroken),
{
    let mut pos: usize = 0;
    proof {
        assert(plaintext@.skip(0) =~= plaintext@);
        assert(index@.concat(decoded(plaintext@).index) =~= old(index)@.concat(
            decoded(plaintext@).index,
        ));
    }
    while pos < plaintext.len()
        invariant
            pos <= plaintext@.len(),
            index@.concat(decoded(plaintext@.skip(pos as int)).index) == old(index)@.concat(
                decoded(plaintext@).index,
            ),
            decoded(plaintext@.skip(pos as int)).complete == decoded(plaintext@).complete,
        decreases plaintext@.len() - pos,
    {
        let ghost rest = plaintext@.skip(pos as int);
        let ghost before = index@;
        let tag: u8 = plaintext[pos];
        let left: usize = plaintext.len() - pos - 1;
        if tag == 1 {
            if left < CHUNK_ENTRY_PAYLOAD_LEN {
                assert(index@ =~= index@.concat(empty_index()));
                return Err(VaultError::IndexChainBroken);
            }
            let entry = read_chunk_entry(slice_subrange(plaintext, pos + 1, plaintext.len()));
            index.chunks.push(entry);
            pos = pos + 1 + CHUNK_ENTRY_PAYLOAD_LEN;
            proof {
                assert(rest.skip(1) =~= plaintext@.subrange(
                    pos - CHUNK_ENTRY_PAYLOAD_LEN,
                    plaintext@.len() as int,
                ));
                assert(rest.skip(73) =~= plaintext@.skip(pos as int));
                let tail = decoded(plaintext@.skip(pos as int)).index;
                assert(index@.chunks =~= before.chunks.push(entry@));
                assert(index@.completed_files =~= before.completed_files);
                assert(index@.concat(tail) =~= before.concat(decoded(rest).index));
            }
        } else if tag == 2 {
            if left < FILE_COMPLETE_PAYLOAD_LEN {
                assert(index@ =~= index@.concat(empty_index()));
                return Err(VaultError::IndexChainBroken);
            }
            let entry = read_complete_entry(slice_subrange(plaintext, pos + 1, plaintext.len()));
            index.completed_files.push(entry);
            pos = pos + 1 + FILE_COMPLETE_PAYLOAD_LEN;
            proof {
                assert(rest.skip(1) =~= plaintext@.subrange(
                    pos - FILE_COMPLETE_PAYLOAD_LEN,
                    plaintext@.len() as int,
                ));
                assert(rest.skip(57) =~= plaintext@.skip(pos as int));
                let tail = decoded(plaintext@.skip(pos as int)).index;
                assert(index@.chunks =~= before.chunks);
                assert(index@.completed_files =~= before.completed_files.push(entry@));
                assert(index@.concat(tail) =~= before.concat(decoded(rest).index));
            }
        } else {
            assert(index@ =~= index@.concat(empty_index()));
            return Err(VaultError::IndexChainBroken);
        }
    }
    assert(index@ =~= index@.concat(empty_index()));
    Ok(())
}

/// The chunk entry whose payload stands at the front of `bytes`.
fn read_chunk_entry(bytes: &[u8]) -> (r: ChunkEntry)
    requires
        bytes@.len() >= CHUNK_ENTRY_PAYLOAD_LEN,
    ensures
        r@ == chunk_entry_at(bytes@),
{
    let entry = ChunkEntry {
        file_id: FileId(copy_array(bytes)),
        sequence_number: read_u64(slice_subrange(bytes, 16, 24)),
        offset_in_blob: read_u64(slice_subrange(bytes, 24, 32)),
        plaintext_length: read_u64(slice_subrange(bytes, 32, 40)),
        content_hash: copy_array(slice_subrange(bytes, 40, 72)),
    };
    proof {
        assert(bytes@.take(16) =~= bytes@.subrange(0, 16));
        assert(bytes@.subrange(16, 24).take(8) =~= bytes@.subrange(16, 24));
        assert(bytes@.subrange(24, 32).take(8) =~= bytes@.subrange(24, 32));
        assert(bytes@.subrange(32, 40).take(8) =~= bytes@.subrange(32, 40));
        assert(bytes@.subrange(40, 72).take(32) =~= bytes@.subrange(40, 72));
    }
    entry
}

/// The completion entry whose payload stands at the front of `bytes`.
fn read_complete_entry(bytes: &[u8]) -> (r: FileCompleteEntry)
    requires
        bytes@.len() >= FILE_COMPLETE_PAYLOAD_LEN,
    ensures
        r@ == complete_entry_at(bytes@),
{
    let entry = FileCompleteEntry {
        file_id: FileId(copy_array(bytes)),
        total_chunks: read_u64(slice_subrange(bytes, 16, 24)),
        full_content_hash: copy_array(slice_subrange(bytes, 24, 56)),
    };
    proof {
        assert(bytes@.take(16) =~= bytes@.subrange(0, 16));
        assert(bytes@.subrange(16, 24).take(8) =~= bytes@.subrange(16, 24));
        assert(bytes@.subrange(24, 56).take(32) =~= bytes@.subrange(24, 56));
    }
    entry
}

/// Appends the bytes of a chunk entry.
pub fn encode_chunk_entry(entry: &ChunkEntry, out: &mut Vec<u8>)
    ensures
        final(out)@ == old(out)@ + chunk_entry_bytes(entry@),
{
    out.push(1);
    append_bytes(out, &entry.file_id.0);
    append_bytes(out, &u64_to_le_bytes(entry.sequence_number));
    append_bytes(out, &u64_to_le_bytes(entry.offset_in_blob));
    append_bytes(out, &u64_to_le_bytes(entry.plaintext_length));
    append_bytes(out, &entry.content_hash);
    assert(out@ =~= old(out)@ + chunk_entry_bytes(entry@));
}

/// Appends the bytes of a completion entry.
pub fn encode_file_complete_entry(entry: &NewFileComplete, out: &mut Vec<u8>)
    ensures
        final(out)@ == old(out)@ + complete_entry_bytes(entry@),
{
    out.push(2);
    append_bytes(out, &entry.file_id.0);
    append_bytes(out, &u64_to_le_bytes(entry.total_chunks));
    append_bytes(out, &entry.full_content_hash);
    assert(out@ =~= old(out)@ + complete_entry_bytes(entry@));
}

/// Estimated index ciphertext bytes added for one `put_file`-style write (append only).
pub fn estimate_index_bytes_for_file(plaintext_len: u64, max_chunk_size: u64) -> (r: u64)
    ensures
        r == saturated(
            saturated(
                chunks_needed(plaintext_len as int, max_chunk_size as int)
                    * INDEX_CHUNK_ENTRY_BYTES,
            ) + INDEX_FILE_COMPLETE_ENTRY_BYTES,
        ),
{
    let size: u64 = if max_chunk_size == 0 {
        1
    } else {
        max_chunk_size
    };
    let whole: u64 = plaintext_len / size;
    let chunk_count: u64 = if plaintext_len % size == 0 {
        whole
    } else {
        assert(whole < plaintext_len || size == 1) by (nonlinear_arith)
            requires
                whole == plaintext_len / size,
                size >= 1,
                plaintext_len % size != 0,
        ;
        whole + 1
    };
    let chunk_bytes: u64 = match chunk_count.checked_mul(INDEX_CHUNK_ENTRY_BYTES) {
        Some(bytes) => bytes,
        None => u64::MAX,
    };
    chunk_bytes.saturating_add(INDEX_FILE_COMPLETE_ENTRY_BYTES)
}

/// `n`, cut off at the largest value of the type.
pub open spec fn saturated(n: int) -> int {
    if n > u64::MAX {
        u64::MAX as int
    } else {
        n
    }
}

/// How many chunks of at most `size` bytes (one byte, where `size` is zero) `len` bytes take.
pub open spec fn chunks_needed(len: int, size: int) -> int {
    if size == 0 {
        len
    } else if len % size == 0 {
        len / size
    } else {
        len / size + 1
    }
}

/// The associated data of a volatile slot.
pub open spec fn volatile_aad_of(vault_id: Seq<u8>, blob_id: Seq<u8>, slot_index: u8) -> Seq<u8> {
    vault_id + blob_id + seq![slot_index]
}

/// The associated data of a chunk: it binds the chunk to its file, its place in the file and its
/// place in the blob.
pub open spec fn chunk_aad_of(vault_id: Seq<u8>, blob_id: Seq<u8>, entry: ChunkView) -> Seq<u8> {
    vault_id + blob_id + entry.file_id + spec_u64_to_le_bytes(entry.sequence_number)
        + spec_u64_to_le_bytes(entry.offset_in_blob)
}

/// The associated data of a volatile slot.
pub fn volatile_aad(vault_id: VaultId, blob_id: BlobId, slot_index: u8) -> (r: Vec<u8>)
    ensures
        r@ == volatile_aad_of(vault_id@, blob_id@, slot_index),
{
    let mut aad: Vec<u8> = Vec::with_capacity(33);
    append_bytes(&mut aad, &vault_id.0);
    append_bytes(&mut aad, &blob_id.0);
    aad.push(slot_index);
    assert(aad@ =~= volatile_aad_of(vault_id@, blob_id@, slot_index));
    aad
}

/// The associated data of a chunk.
pub fn chunk_aad(vault_id: VaultId, blob_id: BlobId, entry: &ChunkEntry) -> (r: Vec<u8>)
    ensures
        r@ == chunk_aad_of(vault_id@, blob_id@, entry@),
{
    let mut aad: Vec<u8> = Vec::with_capacity(64);
    append_bytes(&mut aad, &vault_id.0);
    append_bytes(&mut aad, &blob_id.0);
    append_bytes(&mut aad, &entry.file_id.0);
    append_bytes(&mut aad, &u64_to_le_bytes(entry.sequence_number));
    append_bytes(&mut aad, &u64_to_le_bytes(entry.offset_in_blob));
    assert(aad@ =~= chunk_aad_of(vault_id@, blob_id@, entry@));
    aad
}

/// A chunk entry that was encoded is what decoding finds first, and decoding goes on behind it.
pub proof fn law_encoded_chunk_decodes(entry: ChunkView, rest: Seq<u8>)
    requires
        entry.sized(),
    ensures
        chunk_entry_bytes(entry).len() == INDEX_CHUNK_ENTRY_BYTES,
        decoded(chunk_entry_bytes(entry) + rest) == decoded(rest).after_chunk(entry),
{
    lemma_auto_spec_u64_to_from_le_bytes();
    let bytes = chunk_entry_bytes(entry) + rest;
    let payload = bytes.skip(1);
    assert(bytes.skip(73) =~= rest);
    assert(payload.subrange(0, 16) =~= entry.file_id);
    assert(payload.subrange(16, 24) =~= spec_u64_to_le_bytes(entry.sequence_number));
    assert(payload.subrange(24, 32) =~= spec_u64_to_le_bytes(entry.offset_in_blob));
    assert(payload.subrange(32, 40) =~= spec_u64_to_le_bytes(entry.plaintext_length));
    assert(payload.subrange(40, 72) =~= entry.content_hash);
    assert(chunk_entry_at(payload) =~= entry);
}

/// A completion entry that was encoded is what decoding finds first, and decoding goes on behind
/// it.
pub proof fn law_encoded_complete_decodes(entry: CompleteView, rest: Seq<u8>)
    requires
        entry.sized(),
    ensures
        complete_entry_bytes(entry).len() == INDEX_FILE_COMPLETE_ENTRY_BYTES,
        decoded(complete_entry_bytes(entry) + rest) == decoded(rest).after_complete(entry),
{
    lemma_auto_spec_u64_to_from_le_bytes();
    let bytes = complete_entry_bytes(entry) + rest;
    let payload = bytes.skip(1);
    assert(bytes.skip(57) =~= rest);
    assert(payload.subrange(0, 16) =~= entry.file_id);
    assert(payload.subrange(16, 24) =~= spec_u64_to_le_bytes(entry.total_chunks));
    assert(payload.subrange(24, 56) =~= entry.full_content_hash);
    assert(complete_entry_at(payload) =~= entry);
}

/// Appending to an index that decodes to its end adds the entries of what was appended behind
/// the entries that were there.
pub proof fn law_decoding_appends(front: Seq<u8>, back: Seq<u8>)
    requires
        decoded(front).complete,
    ensures
        decoded(front + back).complete == decoded(back).complete,
        decoded(front + back).index == decoded(front).index.concat(decoded(back).index),
    decreases front.len(),
{
    if front.len() == 0 {
        assert(front + back =~= back);
        assert(empty_index().concat(decoded(back).index) =~= decoded(back).index);
    } else {
        let width: int = if front[0] == 1 {
            73
        } else {
            57
        };
        law_decoding_appends(front.skip(width), back);
        assert((front + back).skip(width) =~= front.skip(width) + back);
        let payload = front.skip(1);
        let joined = (front + back).skip(1);
        assert(joined.subrange(0, 16) =~= payload.subrange(0, 16));
        assert(joined.subrange(16, 24) =~= payload.subrange(16, 24));
        if front[0] == 1 {
            assert(joined.subrange(24, 32) =~= payload.subrange(24, 32));
            assert(joined.subrange(32, 40) =~= payload.subrange(32, 40));
            assert(joined.subrange(40, 72) =~= payload.subrange(40, 72));
        } else {
            assert(joined.subrange(24, 56) =~= payload.subrange(24, 56));
        }
        assert(decoded(front + back).index =~= decoded(front).index.concat(decoded(back).index));
    }
}

/// What a transaction appends decodes to exactly its entries.
pub proof fn law_transaction_decodes(index: IndexView)
    requires
        forall|i: int| 0 <= i < index.chunks.len() ==> (#[trigger] index.chunks[i]).sized(),
        forall|i: int|
            0 <= i < index.completed_files.len() ==> (#[trigger] index.completed_files[i]).sized(),
    ensures
        decoded(transaction_bytes(index)) == (Decoded { index, complete: true }),
        transaction_bytes(index).len() == index.chunks.len() * INDEX_CHUNK_ENTRY_BYTES
            + index.completed_files.len() * INDEX_FILE_COMPLETE_ENTRY_BYTES,
{
    lemma_chunk_run_decodes(index.chunks);
    lemma_complete_run_decodes(index.completed_files);
    law_decoding_appends(
        chunk_run_bytes(index.chunks),
        complete_run_bytes(index.completed_files),
    );
    assert(decoded(transaction_bytes(index)).index =~= index);
}

proof fn lemma_chunk_run_decodes(entries: Seq<ChunkView>)
    requires
        forall|i: int| 0 <= i < entries.len() ==> (#[trigger] entries[i]).sized(),
    ensures
        decoded(chunk_run_bytes(entries)).complete,
        decoded(chunk_run_bytes(entries)).index == (IndexView {
            chunks: entries,
            completed_files: Seq::empty(),
        }),
        chunk_run_bytes(entries).len() == entries.len() * INDEX_CHUNK_ENTRY_BYTES,
    decreases entries.len(),
{
    if entries.len() == 0 {
        assert(decoded(chunk_run_bytes(entries)).index =~= (IndexView {
            chunks: entries,
            completed_files: Seq::empty(),
        }));
    } else {
        lemma_chunk_run_decodes(entries.drop_last());
        let bytes = chunk_entry_bytes(entries.last());
        law_encoded_chunk_decodes(entries.last(), Seq::empty());
        assert(bytes + Seq::<u8>::empty() =~= bytes);
        law_decoding_appends(chunk_run_bytes(entries.drop_last()), bytes);
        assert(decoded(chunk_run_bytes(entries)).index =~= (IndexView {
            chunks: entries,
            completed_files: Seq::empty(),
        }));
    }
}

proof fn lemma_complete_run_decodes(entries: Seq<CompleteView>)
    requires
        forall|i: int| 0 <= i < entries.len() ==> (#[trigger] entries[i]).sized(),
    ensures
        decoded(complete_run_bytes(entries)).complete,
        decoded(complete_run_bytes(entries)).index == (IndexView {
            chunks: Seq::empty(),
            completed_files: entries,
        }),
        complete_run_bytes(entries).len() == entries.len() * INDEX_FILE_COMPLETE_ENTRY_BYTES,
    decreases entries.len(),
{
    if entries.len() == 0 {
        assert(decoded(complete_run_bytes(entries)).index =~= (IndexView {
            chunks: Seq::empty(),
            completed_files: entries,
        }));
    } else {
        lemma_complete_run_decodes(entries.drop_last());
        let bytes = complete_entry_bytes(entries.last());
        law_encoded_complete_decodes(entries.last(), Seq::empty());
        assert(bytes + Seq::<u8>::empty() =~= bytes);
        law_decoding_appends(complete_run_bytes(entries.drop_last()), bytes);
        assert(decoded(complete_run_bytes(entries)).index =~= (IndexView {
            chunks: Seq::empty(),
            completed_files: entries,
        }));
    }
}

/// The associated data of two chunks is the same only where vault, blob, file, place in the file
/// and place in the blob are the same.
pub proof fn law_chunk_aad_binds(
    vault_a: Seq<u8>,
    blob_a: Seq<u8>,
    a: ChunkView,
    vault_b: Seq<u8>,
    blob_b: Seq<u8>,
    b: ChunkView,
)
    requires
        vault_a.len() == 16,
        vault_b.len() == 16,
        blob_a.len() == 16,
        blob_b.len() == 16,
        a.sized(),
        b.sized(),
        chunk_aad_of(vault_a, blob_a, a) == chunk_aad_of(vault_b, blob_b, b),
    ensures
        vault_a == vault_b,
        blob_a == blob_b,
        a.file_id == b.file_id,
        a.sequence_number == b.sequence_number,
        a.offset_in_blob == b.offset_in_blob,
{
    lemma_auto_spec_u64_to_from_le_bytes();
    let left = chunk_aad_of(vault_a, blob_a, a);
    let right = chunk_aad_of(vault_b, blob_b, b);
    assert(left.subrange(0, 16) =~= vault_a && right.subrange(0, 16) =~= vault_b);
    assert(left.subrange(16, 32) =~= blob_a && right.subrange(16, 32) =~= blob_b);
    assert(left.subrange(32, 48) =~= a.file_id && right.subrange(32, 48) =~= b.file_id);
    assert(left.subrange(48, 56) =~= spec_u64_to_le_bytes(a.sequence_number));
    assert(right.subrange(48, 56) =~= spec_u64_to_le_bytes(b.sequence_number));
    assert(left.subrange(56, 64) =~= spec_u64_to_le_bytes(a.offset_in_blob));
    assert(right.subrange(56, 64) =~= spec_u64_to_le_bytes(b.offset_in_blob));
}

} // verus!
