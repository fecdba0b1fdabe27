//! The identities, keys and index entries that everything else speaks of, and their models.
//!
//! In specifications an identity is the sequence of its bytes, and an index entry is a view whose
//! byte fields are sequences.

use vstd::prelude::*;

use crate::bytes::bytes_equal;

verus! {

/// 32-byte vault master key provided by the application layer.
#[derive(Clone, Copy)]
pub struct VaultMasterKey(pub [u8; 32]);

/// UUID identifying a vault: the same across all blobs in a vault.
#[derive(Clone, Copy, Eq, Hash, Debug)]
pub struct VaultId(pub [u8; 16]);

/// UUID identifying a single blob file.
#[derive(Clone, Copy, Eq, Hash, Debug)]
pub struct BlobId(pub [u8; 16]);

/// UUID identifying a logical file spread across one or more chunks.
#[derive(Clone, Copy, Eq, Hash, Debug)]
pub struct FileId(pub [u8; 16]);

impl View for VaultMasterKey {
    type V = Seq<u8>;

    open spec fn view(&self) -> Seq<u8> {
        self.0@
    }
}

impl View for VaultId {
    type V = Seq<u8>;

    open spec fn view(&self) -> Seq<u8> {
        self.0@
    }
}

impl View for BlobId {
    type V = Seq<u8>;

    open spec fn view(&self) -> Seq<u8> {
        self.0@
    }
}

impl View for FileId {
    type V = Seq<u8>;

    open spec fn view(&self) -> Seq<u8> {
        self.0@
    }
}

impl PartialEq for VaultId {
    fn eq(&self, other: &VaultId) -> (r: bool) {
        bytes_equal(&self.0, &other.0)
    }
}

impl vstd::std_specs::cmp::PartialEqSpecImpl for VaultId {
    open spec fn obeys_eq_spec() -> bool {
        true
    }

    open spec fn eq_spec(&self, other: &VaultId) -> bool {
        self@ == other@
    }
}

impl PartialEq for BlobId {
    fn eq(&self, other: &BlobId) -> (r: bool) {
        bytes_equal(&self.0, &other.0)
    }
}

impl vstd::std_specs::cmp::PartialEqSpecImpl for BlobId {
    open spec fn obeys_eq_spec() -> bool {
        true
    }

    open spec fn eq_spec(&self, other: &BlobId) -> bool {
        self@ == other@
    }
}

impl PartialEq for FileId {
    fn eq(&self, other: &FileId) -> (r: bool) {
        bytes_equal(&self.0, &other.0)
    }
}

impl vstd::std_specs::cmp::PartialEqSpecImpl for FileId {
    open spec fn obeys_eq_spec() -> bool {
        true
    }

    open spec fn eq_spec(&self, other: &FileId) -> bool {
        self@ == other@
    }
}

/// An index entry that marks a complete logical file.
#[derive(Clone, Copy, Debug)]
pub struct FileCompleteEntry {
    pub file_id: FileId,
    pub total_chunks: u64,
    /// BLAKE2b-256 of the concatenated chunk plaintexts.
    pub full_content_hash: [u8; 32],
}

/// An index entry that describes one chunk.
#[derive(Clone, Copy, Debug)]
pub struct ChunkEntry {
    pub file_id: FileId,
    pub sequence_number: u64,
    pub offset_in_blob: u64,
    pub plaintext_length: u64,
    /// BLAKE2b-256 of the plaintext.
    pub content_hash: [u8; 32],
}

/// What a [`FileCompleteEntry`] says.
#[verifier::ext_equal]
pub struct CompleteView {
    pub file_id: Seq<u8>,
    pub total_chunks: u64,
    pub full_content_hash: Seq<u8>,
}

/// What a [`ChunkEntry`] says.
#[verifier::ext_equal]
pub struct ChunkView {
    pub file_id: Seq<u8>,
    pub sequence_number: u64,
    pub offset_in_blob: u64,
    pub plaintext_length: u64,
    pub content_hash: Seq<u8>,
}

impl View for FileCompleteEntry {
    type V = CompleteView;

    open spec fn view(&self) -> CompleteView {
        CompleteView {
            file_id: self.file_id@,
            total_chunks: self.total_chunks,
            full_content_hash: self.full_content_hash@,
        }
    }
}

impl View for ChunkEntry {
    type V = ChunkView;

    open spec fn view(&self) -> ChunkView {
        ChunkView {
            file_id: self.file_id@,
            sequence_number: self.sequence_number,
            offset_in_blob: self.offset_in_blob,
            plaintext_length: self.plaintext_length,
            content_hash: self.content_hash@,
        }
    }
}

impl ChunkView {
    /// Both byte fields have the widths that the index format gives them.
    pub open spec fn sized(self) -> bool {
        self.file_id.len() == 16 && self.content_hash.len() == 32
    }
}

impl CompleteView {
    /// Both byte fields have the widths that the index format gives them.
    pub open spec fn sized(self) -> bool {
        self.file_id.len() == 16 && self.full_content_hash.len() == 32
    }
}

/// The views of a sequence of chunk entries.
pub open spec fn chunk_views(entries: Seq<ChunkEntry>) -> Seq<ChunkView> {
    Seq::new(entries.len(), |i: int| entries[i]@)
}

/// The views of a sequence of completion entries.
pub open spec fn complete_views(entries: Seq<FileCompleteEntry>) -> Seq<CompleteView> {
    Seq::new(entries.len(), |i: int| entries[i]@)
}

} // verus!
