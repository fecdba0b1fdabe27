//! A vault: blobs that together hold files, and the entries that are known of them.

use vstd::prelude::*;

use crate::blob::{Blob, BlobView};
use crate::error::VaultError;
use crate::index::{BlobIndex, IndexView};
use crate::types::{BlobId, ChunkEntry, ChunkView, CompleteView, FileCompleteEntry, FileId, VaultId};

verus! {

/// Write and orchestration policy for a vault.
#[derive(Clone, Copy, Debug)]
pub struct VaultConfig {
    /// Maximum plaintext bytes per chunk produced by vault writes.
    pub max_chunk_size: usize,
    /// Soft maximum estimated physical bytes per blob before selecting another blob.
    pub max_blob_size: u64,
    /// Permit one logical file to be distributed across multiple blobs.
    pub split_files_across_blobs: bool,
    /// Prefer rotating chunks across eligible blobs when splitting is enabled.
    pub stripe_chunks_across_blobs: bool,
    /// Keep blob indexes cached and update them after vault writes.
    pub cache_indexes_on_open: bool,
}

impl Default for VaultConfig {
    fn default() -> (r: VaultConfig)
        ensures
            r.max_chunk_size == 4 * 1024 * 1024,
            r.max_blob_size == 1024 * 1024 * 1024,
            !r.split_files_across_blobs,
            !r.stripe_chunks_across_blobs,
            r.cache_indexes_on_open,
    {
        VaultConfig {
            max_chunk_size: 4 * 1024 * 1024,
            max_blob_size: 1024 * 1024 * 1024,
            split_files_across_blobs: false,
            stripe_chunks_across_blobs: false,
            cache_indexes_on_open: true,
        }
    }
}

/// A chunk and a blob may have a size at all.
pub open spec fn vault_config_valid(config: VaultConfig) -> bool {
    config.max_chunk_size != 0 && config.max_blob_size != 0
}

/// Refuses sizes of zero.
pub fn validate_vault_config(config: &VaultConfig) -> (r: Result<(), VaultError>)
    ensures
        vault_config_valid(*config) ==> r == Ok::<(), VaultError>(()),
        !vault_config_valid(*config) ==> r == Err::<(), VaultError>(VaultError::InvalidConfig),
{
    if config.max_chunk_size == 0 || config.max_blob_size == 0 {
        return Err(VaultError::InvalidConfig);
    }
    Ok(())
}

/// A chunk entry plus the blob that owns it.
#[derive(Clone, Copy, Debug)]
pub struct LocatedChunkEntry {
    pub blob_id: BlobId,
    pub entry: ChunkEntry,
}

/// A complete-file marker plus the blob that contains that marker.
#[derive(Clone, Copy, Debug)]
pub struct LocatedFileCompleteEntry {
    pub blob_id: BlobId,
    pub entry: FileCompleteEntry,
}

/// The vault's cached view of all blob indexes.
#[derive(Clone, Debug)]
pub struct VaultIndex {
    pub chunks: Vec<LocatedChunkEntry>,
    pub completed_files: Vec<LocatedFileCompleteEntry>,
}

/// What a [`LocatedChunkEntry`] says.
#[verifier::ext_equal]
pub struct LocatedChunk {
    pub blob_id: Seq<u8>,
    pub entry: ChunkView,
}

/// What a [`LocatedFileCompleteEntry`] says.
#[verifier::ext_equal]
pub struct LocatedComplete {
    pub blob_id: Seq<u8>,
    pub entry: CompleteView,
}

/// What a [`VaultIndex`] lists.
#[verifier::ext_equal]
pub struct VaultIndexView {
    pub chunks: Seq<LocatedChunk>,
    pub completed_files: Seq<LocatedComplete>,
}

impl View for LocatedChunkEntry {
    type V = LocatedChunk;

    open spec fn view(&self) -> LocatedChunk {
        LocatedChunk { blob_id: self.blob_id@, entry: self.entry@ }
    }
}

impl View for LocatedFileCompleteEntry {
    type V = LocatedComplete;

    open spec fn view(&self) -> LocatedComplete {
        LocatedComplete { blob_id: self.blob_id@, entry: self.entry@ }
    }
}

/// The views of a sequence of located chunks.
pub open spec fn located_chunk_views(chunks: Seq<LocatedChunkEntry>) -> Seq<LocatedChunk> {
    Seq::new(chunks.len(), |i: int| chunks[i]@)
}

/// The views of a sequence of located completion markers.
pub open spec fn located_complete_views(entries: Seq<LocatedFileCompleteEntry>) -> Seq<
    LocatedComplete,
> {
    Seq::new(entries.len(), |i: int| entries[i]@)
}

impl View for VaultIndex {
    type V = VaultIndexView;

    open spec fn view(&self) -> VaultIndexView {
        VaultIndexView {
            chunks: located_chunk_views(self.chunks@),
            completed_files: located_complete_views(self.completed_files@),
        }
    }
}

/// An index that lists nothing.
pub open spec fn empty_vault_index() -> VaultIndexView {
    VaultIndexView { chunks: Seq::empty(), completed_files: Seq::empty() }
}

impl Default for VaultIndex {
    fn default() -> (r: VaultIndex)
        ensures
            r@ == empty_vault_index(),
    {
        let index = VaultIndex { chunks: Vec::new(), completed_files: Vec::new() };
        assert(index@ =~= empty_vault_index());
        index
    }
}

/// Stateful read cursor for a logical file.
#[derive(Clone, Copy, Debug)]
pub struct VaultFileCursor {
    file_id: FileId,
    position: u64,
}

/// What a [`VaultFileCursor`] points at.
#[verifier::ext_equal]
pub struct CursorView {
    pub file_id: Seq<u8>,
    pub position: u64,
}

impl View for VaultFileCursor {
    type V = CursorView;

    closed spec fn view(&self) -> CursorView {
        CursorView { file_id: self.file_id@, position: self.position }
    }
}

impl VaultFileCursor {
    /// A cursor at the start of a file.
    pub(crate) fn at_start(file_id: FileId) -> (r: VaultFileCursor)
        ensures
            r@ == (CursorView { file_id: file_id@, position: 0 }),
    {
        VaultFileCursor { file_id, position: 0 }
    }

    /// The file.
    pub fn file_id(&self) -> (r: FileId)
        ensures
            r@ == self@.file_id,
    {
        self.file_id
    }

    /// Where in the file the next read starts.
    pub fn position(&self) -> (r: u64)
        ensures
            r == self@.position,
    {
        self.position
    }

    /// Moves the cursor.
    pub fn seek(&mut self, position: u64)
        ensures
            final(self)@ == (CursorView { file_id: old(self)@.file_id, position }),
    {
        self.position = position;
    }
}

/// Minimal watcher registration hook. Implementations decide how blob changes are detected; the
/// vault only hands out blob identities.
pub trait BlobWatchRegistrar {
    fn watch_blob(&mut self, blob_id: BlobId);
}

/// A vault.
pub struct Vault {
    pub vault_id: VaultId,
    pub blobs: Vec<Blob>,
    pub config: VaultConfig,
    pub index: VaultIndex,
    pub next_blob_cursor: usize,
}

/// What a [`Vault`] is.
#[verifier::ext_equal]
pub struct VaultView {
    pub vault_id: Seq<u8>,
    pub blobs: Seq<BlobView>,
    pub config: VaultConfig,
    pub index: VaultIndexView,
    pub cursor: usize,
}

/// The views of a sequence of blobs.
pub open spec fn blob_views(blobs: Seq<Blob>) -> Seq<BlobView> {
    Seq::new(blobs.len(), |i: int| blobs[i]@)
}

impl View for Vault {
    type V = VaultView;

    open spec fn view(&self) -> VaultView {
        VaultView {
            vault_id: self.vault_id@,
            blobs: blob_views(self.blobs@),
            config: self.config,
            index: self.index@,
            cursor: self.next_blob_cursor,
        }
    }
}

impl VaultView {
    /// There is a blob, every blob belongs to the vault, and the sizes are not zero.
    pub open spec fn valid(self) -> bool {
        &&& self.blobs.len() > 0
        &&& vault_config_valid(self.config)
        &&& forall|i: int|
            0 <= i < self.blobs.len() ==> (#[trigger] self.blobs[i]).vault_id == self.vault_id
    }
}

/// A blob's chunks with the blob they are in.
pub open spec fn locate_chunks(blob_id: Seq<u8>, chunks: Seq<ChunkView>) -> Seq<LocatedChunk> {
    Seq::new(chunks.len(), |i: int| LocatedChunk { blob_id, entry: chunks[i] })
}

/// A blob's completion markers with the blob they are in.
pub open spec fn locate_completes(blob_id: Seq<u8>, entries: Seq<CompleteView>) -> Seq<
    LocatedComplete,
> {
    Seq::new(entries.len(), |i: int| LocatedComplete { blob_id, entry: entries[i] })
}

impl VaultIndexView {
    /// What is known once a blob's index is known to be `index`: nothing older of that blob, and
    /// the rest as it was.
    pub open spec fn replaced(self, blob_id: Seq<u8>, index: IndexView) -> VaultIndexView {
        VaultIndexView {
            chunks: self.chunks.filter(|c: LocatedChunk| c.blob_id != blob_id) + locate_chunks(
                blob_id,
                index.chunks,
            ),
            completed_files: self.completed_files.filter(|c: LocatedComplete| c.blob_id != blob_id)
                + locate_completes(blob_id, index.completed_files),
        }
    }

    /// The chunks of a file.
    pub open spec fn file_chunks(self, file_id: Seq<u8>) -> Seq<LocatedChunk> {
        self.chunks.filter(|c: LocatedChunk| c.entry.file_id == file_id)
    }

    /// The completion markers of a file.
    pub open spec fn file_completes(self, file_id: Seq<u8>) -> Seq<LocatedComplete> {
        self.completed_files.filter(|c: LocatedComplete| c.entry.file_id == file_id)
    }
}

impl VaultIndex {
    /// Puts a blob's index in place of what was known of that blob.
    pub fn replace_cached_blob_index(&mut self, blob_id: BlobId, index: &BlobIndex)
        ensures
            final(self)@ == old(self)@.replaced(blob_id@, index@),
    {
        let mut chunks: Vec<LocatedChunkEntry> = Vec::new();
        let mut i: usize = 0;
        let ghost views = self@.chunks;
        let ghost keep = |c: LocatedChunk| c.blob_id != blob_id@;
        proof {
            reveal(Seq::filter);
            assert(views.take(0) =~= Seq::<LocatedChunk>::empty());
            assert(located_chunk_views(chunks@) =~= views.take(0).filter(keep));
        }
        while i < self.chunks.len()
            invariant
                i <= self.chunks@.len(),
                views == located_chunk_views(self.chunks@),
                keep == |c: LocatedChunk| c.blob_id != blob_id@,
                located_chunk_views(chunks@) == views.take(i as int).filter(keep),
            decreases self.chunks@.len() - i,
        {
            let entry = self.chunks[i];
            let ghost before = chunks@;
            proof {
                reveal(Seq::filter);
                assert(views.take(i + 1).drop_last() =~= views.take(i as int));
                assert(views.take(i + 1).last() == entry@);
            }
            if entry.blob_id != blob_id {
                chunks.push(entry);
                assert(located_chunk_views(chunks@) =~= located_chunk_views(before).push(entry@));
            }
            i += 1;
        }
        assert(views.take(i as int) =~= views);
        let ghost kept_chunks = located_chunk_views(chunks@);
        let mut k: usize = 0;
        assert(located_chunk_views(chunks@) =~= kept_chunks + locate_chunks(
            blob_id@,
            index@.chunks,
        ).take(0));
        while k < index.chunks.len()
            invariant
                k <= index.chunks@.len(),
                located_chunk_views(chunks@) == kept_chunks + locate_chunks(
                    blob_id@,
                    index@.chunks,
                ).take(k as int),
            decreases index.chunks@.len() - k,
        {
            let ghost before = chunks@;
            let located = LocatedChunkEntry { blob_id, entry: index.chunks[k] };
            chunks.push(located);
            k += 1;
            proof {
                assert(located_chunk_views(chunks@) =~= located_chunk_views(before).push(located@));
                assert(located_chunk_views(chunks@) =~= kept_chunks + locate_chunks(
                    blob_id@,
                    index@.chunks,
                ).take(k as int));
            }
        }
        assert(locate_chunks(blob_id@, index@.chunks).take(k as int) =~= locate_chunks(
            blob_id@,
            index@.chunks,
        ));
        let completed_files = replace_completes(&self.completed_files, blob_id, index);
        self.chunks = chunks;
        self.completed_files = completed_files;
        assert(self@ =~= old(self)@.replaced(blob_id@, index@));
    }
}

fn replace_completes(
    known: &Vec<LocatedFileCompleteEntry>,
    blob_id: BlobId,
    index: &BlobIndex,
) -> (r: Vec<LocatedFileCompleteEntry>)
    ensures
        located_complete_views(r@) == located_complete_views(known@).filter(
            |c: LocatedComplete| c.blob_id != blob_id@,
        ) + locate_completes(blob_id@, index@.completed_files),
{
    let mut entries: Vec<LocatedFileCompleteEntry> = Vec::new();
    let mut i: usize = 0;
    let ghost views = located_complete_views(known@);
    let ghost keep = |c: LocatedComplete| c.blob_id != blob_id@;
    proof {
        reveal(Seq::filter);
        assert(views.take(0) =~= Seq::<LocatedComplete>::empty());
        assert(located_complete_views(entries@) =~= views.take(0).filter(keep));
    }
    while i < known.len()
        invariant
            i <= known@.len(),
            views == located_complete_views(known@),
            keep == |c: LocatedComplete| c.blob_id != blob_id@,
            located_complete_views(entries@) == views.take(i as int).filter(keep),
        decreases known@.len() - i,
    {
        let entry = known[i];
        let ghost before = entries@;
        proof {
            reveal(Seq::filter);
            assert(views.take(i + 1).drop_last() =~= views.take(i as int));
            assert(views.take(i + 1).last() == entry@);
        }
        if entry.blob_id != blob_id {
            entries.push(entry);
            assert(located_complete_views(entries@) =~= located_complete_views(before).push(
                entry@,
            ));
        }
        i += 1;
    }
    assert(views.take(i as int) =~= views);
    let ghost kept = located_complete_views(entries@);
    let ghost added = locate_completes(blob_id@, index@.completed_files);
    let mut k: usize = 0;
    assert(located_complete_views(entries@) =~= kept + added.take(0));
    while k < index.completed_files.len()
        invariant
            k <= index.completed_files@.len(),
            added == locate_completes(blob_id@, index@.completed_files),
            located_complete_views(entries@) == kept + added.take(k as int),
        decreases index.completed_files@.len() - k,
    {
        let ghost before = entries@;
        let located = LocatedFileCompleteEntry { blob_id, entry: index.completed_files[k] };
        entries.push(located);
        k += 1;
        proof {
            assert(located_complete_views(entries@) =~= located_complete_views(before).push(
                located@,
            ));
            assert(located_complete_views(entries@) =~= kept + added.take(k as int));
        }
    }
    assert(added.take(k as int) =~= added);
    entries
}

} // verus!
