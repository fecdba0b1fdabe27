//! Which blobs a new file goes to, and in which pieces.

use vstd::prelude::*;
use vstd::slice::slice_subrange;

use crate::bytes::{checked_add, checked_mul, copy_bytes};
use crate::error::VaultError;
use crate::index::{
    chunks_needed, new_chunk_views, NewChunk, NewChunkView, INDEX_FILE_COMPLETE_ENTRY_BYTES,
};
use crate::types::FileId;
use crate::vault::{
    located_chunk_views, located_complete_views, LocatedChunk, LocatedComplete, Vault, VaultConfig,
    VaultIndexView, VaultView,
};

verus! {

/// Bytes that a chunk takes besides its plaintext: its frame and its index entry.
pub const CHUNK_WRITE_OVERHEAD: u64 = 113;

/// Bytes that a chunk takes besides its plaintext where its file's completion marker comes with it.
pub const SPLIT_CHUNK_WRITE_OVERHEAD: u64 = 170;

/// Estimated bytes of a sequence of chunks: plaintext, frames and index entries.
pub open spec fn chunks_size(chunks: Seq<LocatedChunk>) -> int
    decreases chunks.len(),
{
    if chunks.len() == 0 {
        0
    } else {
        chunks_size(chunks.drop_last()) + chunks.last().entry.plaintext_length
            + CHUNK_WRITE_OVERHEAD
    }
}

/// Estimated bytes that a blob's data and index take.
pub open spec fn estimated_size(index: VaultIndexView, blob_id: Seq<u8>) -> int {
    chunks_size(index.chunks.filter(|c: LocatedChunk| c.blob_id == blob_id))
        + INDEX_FILE_COMPLETE_ENTRY_BYTES * index.completed_files.filter(
        |c: LocatedComplete| c.blob_id == blob_id,
    ).len()
}

impl VaultView {
    /// Estimated bytes that a blob's data and index take.
    pub open spec fn blob_size(self, i: int) -> int {
        estimated_size(self.index, self.blobs[i].blob_id)
    }

    /// The blob that is asked first: the one whose turn it is, unless a file is split without
    /// striping, which fills the first blob first.
    pub open spec fn scan_start(self) -> int {
        if self.config.split_files_across_blobs && !self.config.stripe_chunks_across_blobs {
            0
        } else {
            self.cursor as int % self.blobs.len() as int
        }
    }

    /// The first blob, from the `k`-th that is asked on, that has room for `bytes` more.
    pub open spec fn first_with_room(self, planned: Seq<u64>, bytes: int, k: int) -> Result<
        int,
        VaultError,
    >
        decreases self.blobs.len() - k,
    {
        let i = (self.scan_start() + k) % self.blobs.len() as int;
        let size = self.blob_size(i) + planned[i] + bytes;
        if k >= self.blobs.len() {
            Err(VaultError::NoWritableBlob)
        } else if size > u64::MAX {
            Err(VaultError::IntegerOverflow)
        } else if size <= self.config.max_blob_size {
            Ok(i)
        } else {
            self.first_with_room(planned, bytes, k + 1)
        }
    }

    /// The blob that `bytes` more go to, where `planned` bytes are going to each already.
    pub open spec fn chosen(self, planned: Seq<u64>, bytes: int) -> Result<int, VaultError> {
        if self.blobs.len() == 0 {
            Err(VaultError::NoWritableBlob)
        } else if !self.config.split_files_across_blobs && bytes > self.config.max_blob_size {
            Err(VaultError::FileExceedsBlobCapacity)
        } else {
            self.first_with_room(planned, bytes, 0)
        }
    }

    /// The vault when it is the turn of the blob behind blob `i`.
    pub open spec fn after_choice(self, i: int) -> VaultView {
        VaultView { cursor: ((i + 1) % self.blobs.len() as int) as usize, ..self }
    }
}

impl Vault {
    /// Estimated bytes that a blob's data and index take.
    pub fn blob_estimated_size(&self, blob_index: usize) -> (r: Result<u64, VaultError>)
        requires
            blob_index < self@.blobs.len(),
        ensures
            self@.blob_size(blob_index as int) >= 0,
            self@.blob_size(blob_index as int) > u64::MAX ==> r == Err::<u64, VaultError>(
                VaultError::IntegerOverflow,
            ),
            self@.blob_size(blob_index as int) <= u64::MAX ==> r == Ok::<u64, VaultError>(
                self@.blob_size(blob_index as int) as u64,
            ),
    {
        let blob_id = self.blobs[blob_index].blob_id;
        let ghost keep_chunk = |c: LocatedChunk| c.blob_id == blob_id@;
        let ghost keep_complete = |c: LocatedComplete| c.blob_id == blob_id@;
        let ghost chunks = self@.index.chunks;
        let ghost completes = self@.index.completed_files;
        let mut size: u64 = 0;
        let mut i: usize = 0;
        proof {
            reveal(Seq::filter);
            assert(chunks.take(0) =~= Seq::<LocatedChunk>::empty());
            lemma_chunks_size_grows(chunks, keep_chunk, 0);
        }
        while i < self.index.chunks.len()
            invariant
                i <= self.index.chunks@.len(),
                chunks == located_chunk_views(self.index.chunks@),
                keep_chunk == |c: LocatedChunk| c.blob_id == blob_id@,
                size == chunks_size(chunks.take(i as int).filter(keep_chunk)),
                self@.blob_size(blob_index as int) >= chunks_size(chunks.filter(keep_chunk)),
            decreases self.index.chunks@.len() - i,
        {
            let chunk = self.index.chunks[i];
            let ghost seen = chunks.take(i as int).filter(keep_chunk);
            proof {
                reveal(Seq::filter);
                assert(chunks.take(i + 1).drop_last() =~= chunks.take(i as int));
                assert(chunks.take(i + 1).last() == chunk@);
                assert(seen.push(chunk@).drop_last() =~= seen);
                lemma_chunks_size_grows(chunks, keep_chunk, i + 1);
            }
            if chunk.blob_id == blob_id {
                let taken: u64 = match checked_add(
                    chunk.entry.plaintext_length,
                    CHUNK_WRITE_OVERHEAD,
                ) {
                    Ok(sum) => sum,
                    Err(error) => return Err(error),
                };
                size =
                match checked_add(size, taken) {
                    Ok(sum) => sum,
                    Err(error) => return Err(error),
                };
            }
            i += 1;
        }
        assert(chunks.take(i as int) =~= chunks);
        let mut count: u64 = 0;
        let mut k: usize = 0;
        proof {
            reveal(Seq::filter);
            assert(completes.take(0) =~= Seq::<LocatedComplete>::empty());
        }
        while k < self.index.completed_files.len()
            invariant
                k <= self.index.completed_files@.len(),
                completes == located_complete_views(self.index.completed_files@),
                keep_complete == |c: LocatedComplete| c.blob_id == blob_id@,
                count == completes.take(k as int).filter(keep_complete).len(),
                count <= k,
            decreases self.index.completed_files@.len() - k,
        {
            let entry = self.index.completed_files[k];
            proof {
                reveal(Seq::filter);
                assert(completes.take(k + 1).drop_last() =~= completes.take(k as int));
                assert(completes.take(k + 1).last() == entry@);
            }
            if entry.blob_id == blob_id {
                count = count + 1;
            }
            k += 1;
        }
        assert(completes.take(k as int) =~= completes);
        match checked_mul(count, INDEX_FILE_COMPLETE_ENTRY_BYTES) {
            Ok(markers) => checked_add(size, markers),
            Err(error) => Err(error),
        }
    }

    /// Chooses the blob that `bytes` more go to, and passes the turn on.
    pub fn choose_blob(&mut self, planned: &Vec<u64>, bytes: u64) -> (r: Result<usize, VaultError>)
        requires
            planned@.len() == old(self)@.blobs.len(),
        ensures
            match r {
                Ok(i) => {
                    &&& old(self)@.chosen(planned@, bytes as int) == Ok::<int, VaultError>(
                        i as int,
                    )
                    &&& i < old(self)@.blobs.len()
                    &&& old(self)@.blob_size(i as int) + planned@[i as int] + bytes
                        <= old(self)@.config.max_blob_size
                    &&& final(self)@ == old(self)@.after_choice(i as int)
                },
                Err(error) => {
                    &&& old(self)@.chosen(planned@, bytes as int) == Err::<int, VaultError>(error)
                    &&& final(self)@ == old(self)@
                },
            },
            final(self).blobs == old(self).blobs,
            final(self).index == old(self).index,
            final(self).config == old(self).config,
            final(self).vault_id == old(self).vault_id,
    {
        let count: usize = self.blobs.len();
        assert(self@.blobs.len() == count);
        if count == 0 {
            return Err(VaultError::NoWritableBlob);
        }
        if !self.config.split_files_across_blobs && bytes > self.config.max_blob_size {
            return Err(VaultError::FileExceedsBlobCapacity);
        }
        let start: usize = if self.config.split_files_across_blobs
            && !self.config.stripe_chunks_across_blobs {
            0
        } else {
            self.next_blob_cursor % count
        };
        let mut k: usize = 0;
        while k < count
            invariant
                k <= count,
                count > 0,
                count == self@.blobs.len(),
                *self == *old(self),
                planned@.len() == count,
                start == self@.scan_start(),
                start < count,
                self@.chosen(planned@, bytes as int) == self@.first_with_room(
                    planned@,
                    bytes as int,
                    k as int,
                ),
            decreases count - k,
        {
            let i: usize = if k < count - start {
                start + k
            } else {
                k - (count - start)
            };
            proof {
                lemma_wrap(start as int, k as int, count as int);
            }
            let size: u64 = match self.blob_estimated_size(i) {
                Ok(size) => size,
                Err(error) => return Err(error),
            };
            let with_planned: u64 = match checked_add(size, planned[i]) {
                Ok(sum) => sum,
                Err(error) => return Err(error),
            };
            let size_after: u64 = match checked_add(with_planned, bytes) {
                Ok(sum) => sum,
                Err(error) => return Err(error),
            };
            if size_after <= self.config.max_blob_size {
                let next: usize = if i + 1 == count {
                    0
                } else {
                    i + 1
                };
                proof {
                    lemma_next(i as int, count as int);
                }
                self.next_blob_cursor = next;
                assert(self@ =~= old(self)@.after_choice(i as int));
                return Ok(i);
            }
            k += 1;
        }
        Err(VaultError::NoWritableBlob)
    }
}

proof fn lemma_wrap(start: int, k: int, count: int)
    requires
        0 <= start < count,
        0 <= k < count,
    ensures
        (start + k) % count == if k < count - start {
            start + k
        } else {
            k - (count - start)
        },
{
    if k < count - start {
        vstd::arithmetic::div_mod::lemma_small_mod((start + k) as nat, count as nat);
    } else {
        vstd::arithmetic::div_mod::lemma_small_mod((start + k - count) as nat, count as nat);
        vstd::arithmetic::div_mod::lemma_mod_add_multiples_vanish(start + k - count, count);
    }
}

proof fn lemma_next(i: int, count: int)
    requires
        0 <= i < count,
    ensures
        (i + 1) % count == if i + 1 == count {
            0
        } else {
            i + 1
        },
{
    if i + 1 == count {
        vstd::arithmetic::div_mod::lemma_mod_self_0(count);
    } else {
        vstd::arithmetic::div_mod::lemma_small_mod((i + 1) as nat, count as nat);
    }
}

proof fn lemma_chunks_size_grows(
    chunks: Seq<LocatedChunk>,
    keep: spec_fn(LocatedChunk) -> bool,
    i: int,
)
    requires
        0 <= i <= chunks.len(),
    ensures
        0 <= chunks_size(chunks.take(i).filter(keep)) <= chunks_size(chunks.filter(keep)),
    decreases chunks.len(),
{
    reveal(Seq::filter);
    if chunks.len() == 0 {
        assert(chunks.take(i) =~= chunks);
    } else {
        let front = chunks.drop_last();
        let kept = front.filter(keep);
        assert(kept.push(chunks.last()).drop_last() =~= kept);
        if i == chunks.len() {
            assert(chunks.take(i) =~= chunks);
            lemma_chunks_size_grows(front, keep, front.len() as int);
            assert(front.take(front.len() as int) =~= front);
        } else {
            lemma_chunks_size_grows(front, keep, i);
            assert(front.take(i) =~= chunks.take(i));
        }
    }
}

/// The sizes of the pieces that `len` bytes are cut into: full ones, and the rest. There is always
/// one piece, though it may be empty.
pub open spec fn piece_sizes(len: int, size: int) -> Seq<int>
    decreases len,
{
    if size <= 0 || len <= size {
        seq![len]
    } else {
        seq![size] + piece_sizes(len - size, size)
    }
}

/// The pieces that contents are cut into.
pub open spec fn pieces_of(contents: Seq<u8>, size: int) -> Seq<Seq<u8>>
    decreases contents.len(),
{
    if size <= 0 || contents.len() <= size {
        seq![contents]
    } else {
        seq![contents.take(size)] + pieces_of(contents.skip(size), size)
    }
}

/// The largest piece where files may be split: every chunk has to fit into a blob of its own.
pub open spec fn split_chunk_size(config: VaultConfig) -> Result<int, VaultError> {
    let room = config.max_blob_size - SPLIT_CHUNK_WRITE_OVERHEAD;
    if room <= 0 || config.max_chunk_size == 0 {
        Err(VaultError::InvalidConfig)
    } else if room < config.max_chunk_size {
        Ok(room)
    } else {
        Ok(config.max_chunk_size as int)
    }
}

/// The largest piece where files may be split.
pub fn effective_chunk_size(config: &VaultConfig) -> (r: Result<usize, VaultError>)
    ensures
        match split_chunk_size(*config) {
            Err(error) => r == Err::<usize, VaultError>(error),
            Ok(size) => r == Ok::<usize, VaultError>(size as usize) && 0 < size
                <= config.max_chunk_size,
        },
{
    if config.max_blob_size <= SPLIT_CHUNK_WRITE_OVERHEAD || config.max_chunk_size == 0 {
        return Err(VaultError::InvalidConfig);
    }
    let room: u64 = config.max_blob_size - SPLIT_CHUNK_WRITE_OVERHEAD;
    if room < config.max_chunk_size as u64 {
        Ok(room as usize)
    } else {
        Ok(config.max_chunk_size)
    }
}

/// Estimated bytes of a file that is written as `chunk_count` chunks.
pub open spec fn write_size(plaintext_len: int, chunk_count: int) -> int {
    plaintext_len + chunk_count * CHUNK_WRITE_OVERHEAD + INDEX_FILE_COMPLETE_ENTRY_BYTES
}

/// Estimated bytes of a file that is written as `chunk_count` chunks.
pub fn estimated_write_size(plaintext_len: u64, chunk_count: u64) -> (r: Result<u64, VaultError>)
    ensures
        write_size(plaintext_len as int, chunk_count as int) > u64::MAX ==> r == Err::<
            u64,
            VaultError,
        >(VaultError::IntegerOverflow),
        write_size(plaintext_len as int, chunk_count as int) <= u64::MAX ==> r == Ok::<
            u64,
            VaultError,
        >(write_size(plaintext_len as int, chunk_count as int) as u64),
{
    let overhead: u64 = match checked_mul(chunk_count, CHUNK_WRITE_OVERHEAD) {
        Ok(product) => product,
        Err(error) => return Err(error),
    };
    let chunks: u64 = match checked_add(plaintext_len, overhead) {
        Ok(sum) => sum,
        Err(error) => return Err(error),
    };
    checked_add(chunks, INDEX_FILE_COMPLETE_ENTRY_BYTES)
}

/// How far the planning of a split file is: the bytes that go to each blob, the blob of each
/// piece, whose turn it is, and why it cannot go on.
#[verifier::ext_equal]
pub struct SplitPlan {
    pub planned: Seq<u64>,
    pub blobs: Seq<int>,
    pub vault: VaultView,
    pub refusal: Option<VaultError>,
}

/// No bytes for any blob.
pub open spec fn nothing_planned(count: nat) -> Seq<u64> {
    Seq::new(count, |i: int| 0u64)
}

/// The plan for pieces of the given sizes, each placed behind those before it.
pub open spec fn split_plan(vault: VaultView, sizes: Seq<int>) -> SplitPlan
    decreases sizes.len(),
{
    if sizes.len() == 0 {
        SplitPlan {
            planned: nothing_planned(vault.blobs.len()),
            blobs: Seq::empty(),
            vault,
            refusal: None,
        }
    } else {
        let before = split_plan(vault, sizes.drop_last());
        let bytes = sizes.last() + CHUNK_WRITE_OVERHEAD;
        if before.refusal is Some {
            before
        } else if bytes > u64::MAX {
            SplitPlan { refusal: Some(VaultError::IntegerOverflow), ..before }
        } else {
            match before.vault.chosen(before.planned, bytes) {
                Err(error) => SplitPlan { refusal: Some(error), ..before },
                Ok(i) => SplitPlan {
                    planned: before.planned.update(i, (before.planned[i] + bytes) as u64),
                    blobs: before.blobs.push(i),
                    vault: before.vault.after_choice(i),
                    refusal: None,
                },
            }
        }
    }
}

/// The last blob that anything is planned for.
pub open spec fn last_planned(planned: Seq<u64>) -> Option<int>
    decreases planned.len(),
{
    if planned.len() == 0 {
        None
    } else if planned.last() > 0 {
        Some(planned.len() - 1)
    } else {
        last_planned(planned.drop_last())
    }
}

impl VaultView {
    /// Why what is planned does not fit after all, from blob `i` on.
    pub open spec fn overfull(self, planned: Seq<u64>, i: int) -> Option<VaultError>
        decreases planned.len() - i,
    {
        if i >= planned.len() {
            None
        } else if planned[i] > 0 && self.blob_size(i) + planned[i] > u64::MAX {
            Some(VaultError::IntegerOverflow)
        } else if planned[i] > 0 && self.blob_size(i) + planned[i] > self.config.max_blob_size {
            Some(VaultError::NoWritableBlob)
        } else {
            self.overfull(planned, i + 1)
        }
    }

    /// Why a split file does not fit once its completion marker goes to its last blob.
    pub open spec fn completion_refusal(self, planned: Seq<u64>) -> Option<VaultError> {
        match last_planned(planned) {
            None => None,
            Some(i) => if planned[i] + INDEX_FILE_COMPLETE_ENTRY_BYTES > u64::MAX {
                Some(VaultError::IntegerOverflow)
            } else {
                self.overfull(
                    planned.update(i, (planned[i] + INDEX_FILE_COMPLETE_ENTRY_BYTES) as u64),
                    0,
                )
            },
        }
    }
}

/// Where a file goes: the size of its pieces and the blob of each.
#[verifier::ext_equal]
pub struct FilePlan {
    pub chunk_size: int,
    pub blobs: Seq<int>,
}

impl VaultView {
    /// Where a file of `len` bytes goes, and the vault afterwards. Choosing passes the turn on even
    /// where a later choice fails.
    pub open spec fn file_plan(self, len: int) -> (Result<FilePlan, VaultError>, VaultView) {
        if !self.config.split_files_across_blobs {
            let chunk_size = self.config.max_chunk_size as int;
            let count = piece_sizes(len, chunk_size).len();
            let bytes = write_size(len, count as int);
            if bytes > u64::MAX {
                (Err(VaultError::IntegerOverflow), self)
            } else {
                match self.chosen(nothing_planned(self.blobs.len()), bytes) {
                    Err(error) => (Err(error), self),
                    Ok(i) => (
                        Ok(FilePlan { chunk_size, blobs: Seq::new(count, |k: int| i) }),
                        self.after_choice(i),
                    ),
                }
            }
        } else {
            match split_chunk_size(self.config) {
                Err(error) => (Err(error), self),
                Ok(chunk_size) => {
                    let plan = split_plan(self, piece_sizes(len, chunk_size));
                    if plan.refusal is Some {
                        (Err(plan.refusal->0), plan.vault)
                    } else if plan.vault.completion_refusal(plan.planned) is Some {
                        (Err(plan.vault.completion_refusal(plan.planned)->0), plan.vault)
                    } else {
                        (Ok(FilePlan { chunk_size, blobs: plan.blobs }), plan.vault)
                    }
                },
            }
        }
    }
}

/// How many pieces `len` bytes are cut into.
fn count_pieces(len: usize, size: usize) -> (r: usize)
    requires
        size > 0,
    ensures
        r == piece_sizes(len as int, size as int).len(),
        r >= 1,
        r <= len || r == 1,
{
    proof {
        law_piece_count(len as int, size as int);
    }
    if len == 0 {
        assert(chunks_needed(0, size as int) == 0) by {
            vstd::arithmetic::div_mod::lemma_small_mod(0, size as nat);
            vstd::arithmetic::div_mod::lemma_basic_div(0, size as int);
        }
        return 1;
    }
    let whole: usize = len / size;
    assert(whole <= len && (len % size != 0 ==> whole < len)) by (nonlinear_arith)
        requires
            whole == len / size,
            size >= 1,
            len >= 1,
    ;
    if len % size == 0 {
        assert(whole >= 1) by (nonlinear_arith)
            requires
                whole == len / size,
                len % size == 0,
                len >= 1,
                size >= 1,
        ;
        whole
    } else {
        whole + 1
    }
}

/// A file is cut into as many pieces as it takes, and into one where it is empty.
pub proof fn law_piece_count(len: int, size: int)
    requires
        0 <= len,
        0 < size,
    ensures
        piece_sizes(len, size).len() == if len == 0 {
            1
        } else {
            chunks_needed(len, size)
        },
    decreases len,
{
    if len > size {
        law_piece_count(len - size, size);
        vstd::arithmetic::div_mod::lemma_div_plus_one(len - size, size);
        vstd::arithmetic::div_mod::lemma_mod_add_multiples_vanish(len - size, size);
        assert(len - size + size == len);
    } else if len == size {
        vstd::arithmetic::div_mod::lemma_div_by_self(size);
        vstd::arithmetic::div_mod::lemma_mod_self_0(size);
    } else if len > 0 {
        vstd::arithmetic::div_mod::lemma_small_mod(len as nat, size as nat);
        vstd::arithmetic::div_mod::lemma_basic_div(len, size);
    }
}

/// The size of a file's pieces, and the blob of each.
pub struct PlannedFile {
    pub chunk_size: usize,
    pub blobs: Vec<usize>,
}

impl View for PlannedFile {
    type V = FilePlan;

    open spec fn view(&self) -> FilePlan {
        FilePlan {
            chunk_size: self.chunk_size as int,
            blobs: Seq::new(self.blobs@.len(), |i: int| self.blobs@[i] as int),
        }
    }
}

/// A plan with a count of zero for every blob.
fn no_plan(count: usize) -> (r: Vec<u64>)
    ensures
        r@ == nothing_planned(count as nat),
{
    let mut planned: Vec<u64> = Vec::with_capacity(count);
    let mut i: usize = 0;
    while i < count
        invariant
            i <= count,
            planned@ == nothing_planned(i as nat),
        decreases count - i,
    {
        planned.push(0);
        i += 1;
        assert(planned@ =~= nothing_planned(i as nat));
    }
    planned
}

impl Vault {
    /// Decides where a file of `len` bytes goes.
    pub fn plan_file_chunks(&mut self, len: usize) -> (r: Result<PlannedFile, VaultError>)
        requires
            old(self)@.valid(),
        ensures
            match r {
                Ok(plan) => old(self)@.file_plan(len as int).0 == Ok::<FilePlan, VaultError>(plan@)
                    && plan.chunk_size > 0,
                Err(error) => old(self)@.file_plan(len as int).0 == Err::<FilePlan, VaultError>(
                    error,
                ),
            },
            final(self)@ == old(self)@.file_plan(len as int).1,
            final(self).blobs == old(self).blobs,
            final(self).index == old(self).index,
            final(self).config == old(self).config,
            final(self).vault_id == old(self).vault_id,
    {
        if self.config.split_files_across_blobs {
            return self.plan_split(len);
        }
        let count: usize = count_pieces(len, self.config.max_chunk_size);
        let bytes: u64 = match estimated_write_size(len as u64, count as u64) {
            Ok(bytes) => bytes,
            Err(error) => return Err(error),
        };
        let planned = no_plan(self.blobs.len());
        let blob: usize = match self.choose_blob(&planned, bytes) {
            Ok(blob) => blob,
            Err(error) => return Err(error),
        };
        let mut blobs: Vec<usize> = Vec::with_capacity(count);
        let mut i: usize = 0;
        while i < count
            invariant
                i <= count,
                blobs@.len() == i,
                forall|j: int| 0 <= j < i ==> blobs@[j] == blob,
            decreases count - i,
        {
            blobs.push(blob);
            i += 1;
        }
        let plan = PlannedFile { chunk_size: self.config.max_chunk_size, blobs };
        assert(plan@ =~= old(self)@.file_plan(len as int).0->Ok_0);
        Ok(plan)
    }

    /// Decides where a file goes that may be split.
    fn plan_split(&mut self, len: usize) -> (r: Result<PlannedFile, VaultError>)
        requires
            old(self)@.valid(),
            old(self)@.config.split_files_across_blobs,
        ensures
            match r {
                Ok(plan) => old(self)@.file_plan(len as int).0 == Ok::<FilePlan, VaultError>(plan@)
                    && plan.chunk_size > 0,
                Err(error) => old(self)@.file_plan(len as int).0 == Err::<FilePlan, VaultError>(
                    error,
                ),
            },
            final(self)@ == old(self)@.file_plan(len as int).1,
            final(self).blobs == old(self).blobs,
            final(self).index == old(self).index,
            final(self).config == old(self).config,
            final(self).vault_id == old(self).vault_id,
    {
        let chunk_size: usize = match effective_chunk_size(&self.config) {
            Ok(size) => size,
            Err(error) => return Err(error),
        };
        let ghost start = self@;
        let ghost sizes = piece_sizes(len as int, chunk_size as int);
        let ghost mut done: Seq<int> = Seq::empty();
        let mut planned = no_plan(self.blobs.len());
        let mut blobs: Vec<usize> = Vec::new();
        let mut remaining: usize = len;
        let mut more: bool = true;
        proof {
            assert(done + piece_sizes(remaining as int, chunk_size as int) =~= sizes);
            assert(Seq::new(blobs@.len(), |i: int| blobs@[i] as int) =~= Seq::<int>::empty());
        }
        while more
            invariant
                chunk_size > 0,
                start == old(self)@,
                start.valid(),
                start.config.split_files_across_blobs,
                split_chunk_size(start.config) == Ok::<int, VaultError>(chunk_size as int),
                sizes == piece_sizes(len as int, chunk_size as int),
                more ==> done + piece_sizes(remaining as int, chunk_size as int) == sizes,
                !more ==> done == sizes,
                self.blobs == old(self).blobs,
                self.index == old(self).index,
                self.config == old(self).config,
                self.vault_id == old(self).vault_id,
                planned@.len() == self@.blobs.len(),
                ({
                    let plan = split_plan(start, done);
                    &&& plan.refusal is None
                    &&& plan.planned == planned@
                    &&& plan.blobs == Seq::new(blobs@.len(), |i: int| blobs@[i] as int)
                    &&& plan.vault == self@
                }),
            decreases (if more { remaining + 1 } else { 0 }),
        {
            let piece: usize = if remaining <= chunk_size {
                remaining
            } else {
                chunk_size
            };
            let ghost next = done.push(piece as int);
            let ghost rest = piece_sizes(remaining - piece, chunk_size as int);
            proof {
                assert(next.drop_last() =~= done);
                assert(next.last() == piece);
                if remaining <= chunk_size {
                    assert(next =~= sizes);
                } else {
                    assert(done + piece_sizes(remaining as int, chunk_size as int) =~= next
                        + rest);
                    lemma_plan_refusal_spreads(start, next, rest);
                }
            }
            let bytes: u64 = match checked_add(piece as u64, CHUNK_WRITE_OVERHEAD) {
                Ok(bytes) => bytes,
                Err(error) => return Err(error),
            };
            let ghost before = self@;
            let blob: usize = match self.choose_blob(&planned, bytes) {
                Ok(blob) => blob,
                Err(error) => return Err(error),
            };
            proof {
                assert(before.blob_size(blob as int) >= 0) by {
                    lemma_blob_size_natural(before, blob as int);
                }
            }
            let sum: u64 = planned[blob] + bytes;
            planned.set(blob, sum);
            blobs.push(blob);
            if remaining <= chunk_size {
                more = false;
            }
            remaining = remaining - piece;
            proof {
                done = next;
                assert(Seq::new(blobs@.len(), |i: int| blobs@[i] as int) =~= split_plan(
                    start,
                    next,
                ).blobs);
            }
        }
        match self.refuse_overfull(&mut planned) {
            Some(error) => Err(error),
            None => {
                let plan = PlannedFile { chunk_size, blobs };
                assert(plan@ =~= old(self)@.file_plan(len as int).0->Ok_0);
                Ok(plan)
            },
        }
    }

    /// Adds the completion marker to what is planned and checks that all of it fits.
    fn refuse_overfull(&self, planned: &mut Vec<u64>) -> (r: Option<VaultError>)
        requires
            old(planned)@.len() == self@.blobs.len(),
        ensures
            r == self@.completion_refusal(old(planned)@),
    {
        let ghost before = planned@;
        let mut last: usize = planned.len();
        assert(before.take(last as int) =~= before);
        while last > 0 && planned[last - 1] == 0
            invariant
                last <= before.len(),
                planned@ == before,
                last_planned(before) == last_planned(before.take(last as int)),
            decreases last,
        {
            assert(before.take(last as int).drop_last() =~= before.take(last - 1));
            assert(before.take(last as int).last() == before[last - 1]);
            last -= 1;
        }
        if last == 0 {
            return None;
        }
        assert(before.take(last as int).last() == before[last - 1]);
        let marked: u64 = match checked_add(planned[last - 1], INDEX_FILE_COMPLETE_ENTRY_BYTES) {
            Ok(sum) => sum,
            Err(error) => return Some(error),
        };
        planned.set(last - 1, marked);
        let mut i: usize = 0;
        while i < planned.len()
            invariant
                i <= planned@.len(),
                planned@.len() == self@.blobs.len(),
                before == old(planned)@,
                self@.completion_refusal(before) == self@.overfull(planned@, i as int),
            decreases planned@.len() - i,
        {
            if planned[i] > 0 {
                let size: u64 = match self.blob_estimated_size(i) {
                    Ok(size) => size,
                    Err(error) => return Some(error),
                };
                let size_after: u64 = match checked_add(size, planned[i]) {
                    Ok(sum) => sum,
                    Err(error) => return Some(error),
                };
                if size_after > self.config.max_blob_size {
                    return Some(VaultError::NoWritableBlob);
                }
            }
            i += 1;
        }
        None
    }
}

/// An estimated size is not negative.
pub proof fn lemma_blob_size_natural(vault: VaultView, i: int)
    ensures
        vault.blob_size(i) >= 0,
{
    let blob_id = vault.blobs[i].blob_id;
    let keep = |c: LocatedChunk| c.blob_id == blob_id;
    lemma_chunks_size_grows(vault.index.chunks, keep, 0);
}

proof fn lemma_plan_refusal_spreads(vault: VaultView, front: Seq<int>, back: Seq<int>)
    ensures
        split_plan(vault, front).refusal is Some ==> split_plan(vault, front + back) == split_plan(
            vault,
            front,
        ),
    decreases back.len(),
{
    if back.len() == 0 {
        assert(front + back =~= front);
    } else {
        lemma_plan_refusal_spreads(vault, front, back.drop_last());
        assert((front + back).drop_last() =~= front + back.drop_last());
    }
}

/// The chunks of a file, in order.
pub open spec fn chunks_of(file_id: Seq<u8>, contents: Seq<u8>, size: int) -> Seq<NewChunkView> {
    Seq::new(
        pieces_of(contents, size).len(),
        |j: int|
            NewChunkView {
                file_id,
                sequence_number: j as u64,
                plaintext: pieces_of(contents, size)[j],
            },
    )
}

/// Of the first `n` chunks, those that go to the blob.
pub open spec fn chunks_for(
    chunks: Seq<NewChunkView>,
    blobs: Seq<int>,
    blob: int,
    n: int,
) -> Seq<NewChunkView>
    decreases n,
{
    if n <= 0 {
        Seq::empty()
    } else if blobs[n - 1] == blob {
        chunks_for(chunks, blobs, blob, n - 1).push(chunks[n - 1])
    } else {
        chunks_for(chunks, blobs, blob, n - 1)
    }
}

/// Cuts contents into pieces and sorts them by the blob that they go to.
pub fn group_chunks(file_id: FileId, contents: &[u8], plan: &PlannedFile, blob_count: usize) -> (r:
    Vec<Vec<NewChunk>>)
    requires
        plan.chunk_size > 0,
        plan.blobs@.len() == pieces_of(contents@, plan.chunk_size as int).len(),
        forall|j: int| 0 <= j < plan.blobs@.len() ==> (#[trigger] plan.blobs@[j]) < blob_count,
    ensures
        r@.len() == blob_count,
        forall|b: int|
            0 <= b < blob_count ==> new_chunk_views((#[trigger] r@[b])@) == chunks_for(
                chunks_of(file_id@, contents@, plan.chunk_size as int),
                plan@.blobs,
                b,
                plan@.blobs.len() as int,
            ),
{
    let size: usize = plan.chunk_size;
    let ghost chunks = chunks_of(file_id@, contents@, size as int);
    let ghost pieces = pieces_of(contents@, size as int);
    let ghost blobs = plan@.blobs;
    let mut groups: Vec<Vec<NewChunk>> = Vec::with_capacity(blob_count);
    let mut b: usize = 0;
    while b < blob_count
        invariant
            b <= blob_count,
            groups@.len() == b,
            forall|i: int| 0 <= i < b ==> (#[trigger] groups@[i])@.len() == 0,
        decreases blob_count - b,
    {
        groups.push(Vec::new());
        b += 1;
    }
    let mut start: usize = 0;
    let mut j: usize = 0;
    proof {
        assert(contents@.skip(0) =~= contents@);
        assert(pieces.skip(0) =~= pieces);
        assert forall|i: int| 0 <= i < blob_count implies new_chunk_views(
            (#[trigger] groups@[i])@,
        ) == chunks_for(chunks, blobs, i, 0) by {
            assert(new_chunk_views(groups@[i]@) =~= Seq::<NewChunkView>::empty());
        }
    }
    while j < plan.blobs.len()
        invariant
            size == plan.chunk_size,
            size > 0,
            j <= plan.blobs@.len(),
            start <= contents@.len(),
            plan.blobs@.len() == pieces.len(),
            pieces == pieces_of(contents@, size as int),
            chunks == chunks_of(file_id@, contents@, size as int),
            blobs == plan@.blobs,
            forall|k: int| 0 <= k < plan.blobs@.len() ==> (#[trigger] plan.blobs@[k]) < blob_count,
            j < pieces.len() ==> pieces.skip(j as int) == pieces_of(
                contents@.skip(start as int),
                size as int,
            ),
            groups@.len() == blob_count,
            forall|i: int|
                0 <= i < blob_count ==> new_chunk_views((#[trigger] groups@[i])@) == chunks_for(
                    chunks,
                    blobs,
                    i,
                    j as int,
                ),
        decreases plan.blobs@.len() - j,
    {
        let left: usize = contents.len() - start;
        let piece: usize = if left <= size {
            left
        } else {
            size
        };
        let plaintext = copy_bytes(slice_subrange(contents, start, start + piece));
        let ghost rest = contents@.skip(start as int);
        proof {
            assert(pieces[j as int] == pieces.skip(j as int)[0]);
            assert(plaintext@ =~= rest.take(piece as int));
            if left <= size {
                assert(rest.take(piece as int) =~= rest);
                assert(pieces.skip(j as int).len() == 1);
            } else {
                assert(pieces.skip(j as int).skip(1) =~= pieces.skip(j + 1));
                assert(pieces.skip(j as int).skip(1) =~= pieces_of(
                    rest.skip(size as int),
                    size as int,
                ));
                assert(rest.skip(size as int) =~= contents@.skip(start + piece));
            }
            assert(plaintext@ =~= pieces[j as int]);
        }
        let chunk = NewChunk { file_id, sequence_number: j as u64, plaintext };
        assert(chunk@ =~= chunks[j as int]);
        let blob: usize = plan.blobs[j];
        let ghost before = groups@;
        push_to_group(&mut groups, blob, chunk);
        start = start + piece;
        j += 1;
        proof {
            assert forall|i: int| 0 <= i < blob_count implies new_chunk_views(
                (#[trigger] groups@[i])@,
            ) == chunks_for(chunks, blobs, i, j as int) by {
                assert(blobs[j - 1] == blob as int);
                if i == blob {
                    assert(new_chunk_views(groups@[i]@) =~= new_chunk_views(before[i]@).push(
                        chunk@,
                    ));
                } else {
                    assert(groups@[i] == before[i]);
                }
            }
        }
    }
    groups
}

/// Appends a chunk to the group of a blob.
fn push_to_group(groups: &mut Vec<Vec<NewChunk>>, blob: usize, chunk: NewChunk)
    requires
        blob < old(groups)@.len(),
    ensures
        final(groups)@.len() == old(groups)@.len(),
        final(groups)@[blob as int]@ == old(groups)@[blob as int]@.push(chunk),
        forall|i: int|
            0 <= i < old(groups)@.len() && i != blob ==> #[trigger] final(groups)@[i] == old(
                groups,
            )@[i],
{
    groups[blob].push(chunk);
}

/// A plan has a blob of the vault for every piece.
pub proof fn lemma_plan_shape(vault: VaultView, contents: Seq<u8>, plan: FilePlan)
    requires
        vault.valid(),
        vault.file_plan(contents.len() as int).0 == Ok::<FilePlan, VaultError>(plan),
    ensures
        plan.chunk_size > 0,
        plan.blobs.len() > 0,
        plan.blobs.len() == pieces_of(contents, plan.chunk_size).len(),
        plan.blobs.len() == piece_sizes(contents.len() as int, plan.chunk_size).len(),
        forall|j: int|
            0 <= j < plan.blobs.len() ==> 0 <= #[trigger] plan.blobs[j] < vault.blobs.len(),
{
    let len = contents.len() as int;
    lemma_piece_lengths(contents, plan.chunk_size);
    if vault.config.split_files_across_blobs {
        lemma_split_plan_shape(vault, piece_sizes(len, plan.chunk_size));
    } else {
        let count = piece_sizes(len, plan.chunk_size).len();
        lemma_chosen_in_range(
            vault,
            nothing_planned(vault.blobs.len()),
            write_size(len, count as int),
        );
    }
}

/// The pieces have the sizes that were planned.
pub proof fn lemma_piece_lengths(contents: Seq<u8>, size: int)
    ensures
        pieces_of(contents, size).len() == piece_sizes(contents.len() as int, size).len(),
        pieces_of(contents, size).len() > 0,
        forall|j: int|
            0 <= j < pieces_of(contents, size).len() ==> (#[trigger] pieces_of(
                contents,
                size,
            )[j]).len() == piece_sizes(contents.len() as int, size)[j],
    decreases contents.len(),
{
    if size > 0 && contents.len() > size {
        lemma_piece_lengths(contents.skip(size), size);
        let rest = pieces_of(contents.skip(size), size);
        let sizes = piece_sizes(contents.len() - size, size);
        assert forall|j: int| 0 <= j < pieces_of(contents, size).len() implies (
        #[trigger] pieces_of(contents, size)[j]).len() == piece_sizes(
            contents.len() as int,
            size,
        )[j] by {
            if j > 0 {
                assert(pieces_of(contents, size)[j] == rest[j - 1]);
                assert(piece_sizes(contents.len() as int, size)[j] == sizes[j - 1]);
            }
        }
    }
}

/// A blob that is chosen is one of the vault, and has room.
pub proof fn lemma_chosen_in_range(vault: VaultView, planned: Seq<u64>, bytes: int)
    ensures
        vault.chosen(planned, bytes) matches Ok(i) ==> 0 <= i < vault.blobs.len()
            && vault.blob_size(i) + planned[i] + bytes <= vault.config.max_blob_size,
{
    if vault.blobs.len() > 0 {
        lemma_first_in_range(vault, planned, bytes, 0);
    }
}

proof fn lemma_first_in_range(vault: VaultView, planned: Seq<u64>, bytes: int, k: int)
    requires
        vault.blobs.len() > 0,
    ensures
        vault.first_with_room(planned, bytes, k) matches Ok(i) ==> 0 <= i < vault.blobs.len()
            && vault.blob_size(i) + planned[i] + bytes <= vault.config.max_blob_size,
    decreases vault.blobs.len() - k,
{
    vstd::arithmetic::div_mod::lemma_mod_bound(
        vault.scan_start() + k,
        vault.blobs.len() as int,
    );
    if k < vault.blobs.len() {
        lemma_first_in_range(vault, planned, bytes, k + 1);
    }
}

/// A plan for pieces has a blob of the vault for each, and leaves all but the turn as it was.
pub proof fn lemma_split_plan_shape(vault: VaultView, sizes: Seq<int>)
    requires
        vault.blobs.len() > 0,
    ensures
        ({
            let plan = split_plan(vault, sizes);
            &&& plan.planned.len() == vault.blobs.len()
            &&& plan.vault.blobs == vault.blobs
            &&& plan.vault.index == vault.index
            &&& plan.vault.config == vault.config
            &&& plan.vault.vault_id == vault.vault_id
            &&& plan.refusal is None ==> plan.blobs.len() == sizes.len()
            &&& forall|j: int|
                0 <= j < plan.blobs.len() ==> 0 <= #[trigger] plan.blobs[j] < vault.blobs.len()
        }),
    decreases sizes.len(),
{
    if sizes.len() > 0 {
        lemma_split_plan_shape(vault, sizes.drop_last());
        let before = split_plan(vault, sizes.drop_last());
        lemma_chosen_in_range(
            before.vault,
            before.planned,
            sizes.last() + CHUNK_WRITE_OVERHEAD,
        );
        let plan = split_plan(vault, sizes);
        assert forall|j: int| 0 <= j < plan.blobs.len() implies 0 <= #[trigger] plan.blobs[j]
            < vault.blobs.len() by {
            if j < before.blobs.len() {
                assert(plan.blobs[j] == before.blobs[j]);
            }
        }
    }
}

} // verus!
