//! What the known entries say of a file: its chunks in order, its size, whether it is complete.

use vstd::prelude::*;

use crate::blob::BlobView;
use crate::bytes::checked_add;
use crate::error::VaultError;
use crate::order::{law_order_is_stable, order_of, positions, stable_order};
use crate::types::{BlobId, FileId, VaultId};
use crate::vault::{
    located_chunk_views, located_complete_views, BlobWatchRegistrar, CursorView, LocatedChunk,
    LocatedChunkEntry, LocatedComplete, LocatedFileCompleteEntry, Vault, VaultFileCursor,
    VaultIndex, VaultIndexView,
};

verus! {

/// The places of the chunks in their file.
pub open spec fn numbers_of(chunks: Seq<LocatedChunk>) -> Seq<u64> {
    Seq::new(chunks.len(), |i: int| chunks[i].entry.sequence_number)
}

/// The chunks in the order of their places in their file.
pub open spec fn by_number(chunks: Seq<LocatedChunk>) -> Seq<LocatedChunk> {
    Seq::new(order_of(numbers_of(chunks)).len(), |i: int| chunks[order_of(numbers_of(chunks))[i]])
}

/// The places are zero, one, two and so on.
pub open spec fn numbered(chunks: Seq<LocatedChunk>) -> bool {
    forall|i: int| 0 <= i < chunks.len() ==> (#[trigger] chunks[i]).entry.sequence_number == i
}

/// Plaintext bytes of the chunks.
pub open spec fn total_len(chunks: Seq<LocatedChunk>) -> int
    decreases chunks.len(),
{
    if chunks.len() == 0 {
        0
    } else {
        total_len(chunks.drop_last()) + chunks.last().entry.plaintext_length
    }
}

/// The completion marker that counts: the last of those that count the most chunks.
pub open spec fn latest(entries: Seq<LocatedComplete>) -> Option<LocatedComplete>
    decreases entries.len(),
{
    if entries.len() == 0 {
        None
    } else {
        match latest(entries.drop_last()) {
            None => Some(entries.last()),
            Some(best) => if entries.last().entry.total_chunks >= best.entry.total_chunks {
                Some(entries.last())
            } else {
                Some(best)
            },
        }
    }
}

impl VaultIndexView {
    /// The chunks of a file in order, where none is missing.
    pub open spec fn ordered(self, file_id: Seq<u8>) -> Result<Seq<LocatedChunk>, VaultError> {
        let chunks = by_number(self.file_chunks(file_id));
        if self.file_chunks(file_id).len() == 0 {
            Err(VaultError::FileNotFound)
        } else if numbered(chunks) {
            Ok(chunks)
        } else {
            Err(VaultError::IncompleteFile)
        }
    }

    /// The size of a file.
    pub open spec fn size(self, file_id: Seq<u8>) -> Result<u64, VaultError> {
        match self.ordered(file_id) {
            Err(error) => Err(error),
            Ok(chunks) => if total_len(chunks) > u64::MAX {
                Err(VaultError::IntegerOverflow)
            } else {
                Ok(total_len(chunks) as u64)
            },
        }
    }

    /// The completion marker of a file that counts.
    pub open spec fn latest_complete(self, file_id: Seq<u8>) -> Option<LocatedComplete> {
        latest(self.file_completes(file_id))
    }

    /// Why a file may not be read: no chunk of it is known, it has no completion marker, or the
    /// marker counts another number of chunks.
    pub open spec fn incompleteness(self, file_id: Seq<u8>) -> Option<VaultError> {
        if self.file_chunks(file_id).len() == 0 {
            Some(VaultError::FileNotFound)
        } else {
            match self.latest_complete(file_id) {
                None => Some(VaultError::IncompleteFile),
                Some(marker) => if marker.entry.total_chunks != self.file_chunks(file_id).len() {
                    Some(VaultError::IncompleteFile)
                } else {
                    None
                },
            }
        }
    }
}

impl VaultIndex {
    /// The chunks of a file as they are listed.
    fn collect_file_chunks(&self, file_id: FileId) -> (r: Vec<LocatedChunkEntry>)
        ensures
            located_chunk_views(r@) == self@.file_chunks(file_id@),
    {
        let mut chunks: Vec<LocatedChunkEntry> = Vec::new();
        let mut i: usize = 0;
        let ghost views = self@.chunks;
        let ghost keep = |c: LocatedChunk| c.entry.file_id == file_id@;
        proof {
            reveal(Seq::filter);
            assert(views.take(0) =~= Seq::<LocatedChunk>::empty());
            assert(located_chunk_views(chunks@) =~= views.take(0).filter(keep));
        }
        while i < self.chunks.len()
            invariant
                i <= self.chunks@.len(),
                views == located_chunk_views(self.chunks@),
                keep == |c: LocatedChunk| c.entry.file_id == file_id@,
                located_chunk_views(chunks@) == views.take(i as int).filter(keep),
            decreases self.chunks@.len() - i,
        {
            let entry = self.chunks[i];
            let ghost before = chunks@;
            proof {
                reveal(Seq::filter);
                assert(views.take(i + 1).drop_last() =~= views.take(i as int));
                assert(views.take(i + 1).last() == entry@);
            }
            if entry.entry.file_id == file_id {
                chunks.push(entry);
                assert(located_chunk_views(chunks@) =~= located_chunk_views(before).push(entry@));
            }
            i += 1;
        }
        assert(views.take(i as int) =~= views);
        chunks
    }

    /// Whether any chunk of a file is known.
    pub fn knows_file(&self, file_id: FileId) -> (r: bool)
        ensures
            r == (self@.file_chunks(file_id@).len() > 0),
    {
        let chunks = self.collect_file_chunks(file_id);
        assert(located_chunk_views(chunks@).len() == chunks@.len());
        chunks.len() > 0
    }

    /// The chunks of a file in order.
    pub fn ordered_file_chunks(&self, file_id: FileId) -> (r: Result<
        Vec<LocatedChunkEntry>,
        VaultError,
    >)
        ensures
            match r {
                Ok(chunks) => self@.ordered(file_id@) == Ok::<Seq<LocatedChunk>, VaultError>(
                    located_chunk_views(chunks@),
                ),
                Err(error) => self@.ordered(file_id@) == Err::<Seq<LocatedChunk>, VaultError>(
                    error,
                ),
            },
    {
        let chunks = self.collect_file_chunks(file_id);
        let ghost views = located_chunk_views(chunks@);
        assert(views.len() == chunks@.len());
        if chunks.len() == 0 {
            return Err(VaultError::FileNotFound);
        }
        let numbers = sequence_numbers(&chunks);
        let order = stable_order(&numbers);
        let ghost sorted = by_number(views);
        proof {
            law_order_is_stable(numbers@);
            assert forall|j: int| 0 <= j < order@.len() implies (#[trigger] order@[j])
                < chunks@.len() by {
                assert(positions(order@)[j] == order_of(numbers@)[j]);
            }
        }
        let mut out: Vec<LocatedChunkEntry> = Vec::with_capacity(chunks.len());
        let mut i: usize = 0;
        while i < order.len()
            invariant
                i <= order@.len(),
                order@.len() == chunks@.len(),
                views == located_chunk_views(chunks@),
                sorted == by_number(views),
                sorted.len() == order@.len(),
                positions(order@) == order_of(numbers_of(views)),
                forall|j: int| 0 <= j < order@.len() ==> (#[trigger] order@[j]) < chunks@.len(),
                located_chunk_views(out@) == sorted.take(i as int),
                forall|j: int|
                    0 <= j < i ==> (#[trigger] sorted[j]).entry.sequence_number == j,
                self@.ordered(file_id@) == if numbered(sorted) {
                    Ok::<Seq<LocatedChunk>, VaultError>(sorted)
                } else {
                    Err(VaultError::IncompleteFile)
                },
            decreases order@.len() - i,
        {
            let chunk = chunks[order[i]];
            let ghost before = out@;
            proof {
                assert(positions(order@)[i as int] == order@[i as int]);
                assert(sorted[i as int] == chunk@);
            }
            if chunk.entry.sequence_number != i as u64 {
                return Err(VaultError::IncompleteFile);
            }
            out.push(chunk);
            i += 1;
            proof {
                assert(located_chunk_views(out@) =~= located_chunk_views(before).push(chunk@));
                assert(located_chunk_views(out@) =~= sorted.take(i as int));
            }
        }
        assert(sorted.take(i as int) =~= sorted);
        Ok(out)
    }

    /// The size of a file.
    pub fn file_size(&self, file_id: FileId) -> (r: Result<u64, VaultError>)
        ensures
            r == self@.size(file_id@),
    {
        match self.ordered_file_chunks(file_id) {
            Ok(chunks) => sum_lengths(&chunks),
            Err(error) => Err(error),
        }
    }

    /// The completion marker of a file that counts.
    pub fn latest_complete(&self, file_id: FileId) -> (r: Result<
        LocatedFileCompleteEntry,
        VaultError,
    >)
        ensures
            match self@.latest_complete(file_id@) {
                Some(marker) => r is Ok && r->Ok_0@ == marker,
                None => r == Err::<LocatedFileCompleteEntry, VaultError>(
                    VaultError::IncompleteFile,
                ),
            },
    {
        let mut best: Option<LocatedFileCompleteEntry> = None;
        let mut i: usize = 0;
        let ghost views = self@.completed_files;
        let ghost keep = |c: LocatedComplete| c.entry.file_id == file_id@;
        proof {
            reveal(Seq::filter);
            assert(views.take(0) =~= Seq::<LocatedComplete>::empty());
        }
        while i < self.completed_files.len()
            invariant
                i <= self.completed_files@.len(),
                views == located_complete_views(self.completed_files@),
                keep == |c: LocatedComplete| c.entry.file_id == file_id@,
                match best {
                    Some(marker) => latest(views.take(i as int).filter(keep)) == Some(marker@),
                    None => latest(views.take(i as int).filter(keep)) is None,
                },
            decreases self.completed_files@.len() - i,
        {
            let entry = self.completed_files[i];
            let ghost seen = views.take(i as int).filter(keep);
            proof {
                reveal(Seq::filter);
                assert(views.take(i + 1).drop_last() =~= views.take(i as int));
                assert(views.take(i + 1).last() == entry@);
                assert(seen.push(entry@).drop_last() =~= seen);
            }
            if entry.entry.file_id == file_id {
                best =
                match best {
                    None => Some(entry),
                    Some(marker) => if entry.entry.total_chunks >= marker.entry.total_chunks {
                        Some(entry)
                    } else {
                        Some(marker)
                    },
                };
            }
            i += 1;
        }
        assert(views.take(i as int) =~= views);
        match best {
            Some(marker) => Ok(marker),
            None => Err(VaultError::IncompleteFile),
        }
    }

    /// Refuses a file of which a chunk or the completion marker is missing.
    pub fn ensure_file_complete(&self, file_id: FileId) -> (r: Result<(), VaultError>)
        ensures
            match self@.incompleteness(file_id@) {
                Some(error) => r == Err::<(), VaultError>(error),
                None => r == Ok::<(), VaultError>(()),
            },
    {
        let chunks = self.collect_file_chunks(file_id);
        assert(located_chunk_views(chunks@).len() == chunks@.len());
        if chunks.len() == 0 {
            return Err(VaultError::FileNotFound);
        }
        let marker = match self.latest_complete(file_id) {
            Ok(marker) => marker,
            Err(error) => return Err(error),
        };
        if marker.entry.total_chunks != chunks.len() as u64 {
            return Err(VaultError::IncompleteFile);
        }
        Ok(())
    }
}

fn sequence_numbers(chunks: &Vec<LocatedChunkEntry>) -> (r: Vec<u64>)
    ensures
        r@ == numbers_of(located_chunk_views(chunks@)),
{
    let mut numbers: Vec<u64> = Vec::with_capacity(chunks.len());
    let mut i: usize = 0;
    while i < chunks.len()
        invariant
            i <= chunks@.len(),
            numbers@.len() == i,
            forall|j: int| 0 <= j < i ==> numbers@[j] == chunks@[j].entry.sequence_number,
        decreases chunks@.len() - i,
    {
        numbers.push(chunks[i].entry.sequence_number);
        i += 1;
    }
    assert(numbers@ =~= numbers_of(located_chunk_views(chunks@)));
    numbers
}

/// Lengths of chunks add up to more than those of the first few.
pub proof fn lemma_total_len_grows(chunks: Seq<LocatedChunk>, i: int)
    requires
        0 <= i <= chunks.len(),
    ensures
        0 <= total_len(chunks.take(i)) <= total_len(chunks),
    decreases chunks.len(),
{
    if chunks.len() == 0 {
        assert(chunks.take(i) =~= chunks);
    } else if i == chunks.len() {
        assert(chunks.take(i) =~= chunks);
        lemma_total_len_grows(chunks.drop_last(), chunks.len() - 1);
        assert(chunks.drop_last().take(chunks.len() - 1) =~= chunks.drop_last());
    } else {
        lemma_total_len_grows(chunks.drop_last(), i);
        assert(chunks.drop_last().take(i) =~= chunks.take(i));
    }
}

/// Plaintext bytes of the chunks.
pub fn sum_lengths(chunks: &Vec<LocatedChunkEntry>) -> (r: Result<u64, VaultError>)
    ensures
        ({
            let total = total_len(located_chunk_views(chunks@));
            if total > u64::MAX {
                r == Err::<u64, VaultError>(VaultError::IntegerOverflow)
            } else {
                r == Ok::<u64, VaultError>(total as u64) && total >= 0
            }
        }),
{
    let ghost views = located_chunk_views(chunks@);
    let mut total: u64 = 0;
    let mut i: usize = 0;
    assert(views.take(0) =~= Seq::<LocatedChunk>::empty());
    while i < chunks.len()
        invariant
            i <= chunks@.len(),
            views == located_chunk_views(chunks@),
            total == total_len(views.take(i as int)),
        decreases chunks@.len() - i,
    {
        proof {
            assert(views.take(i + 1).drop_last() =~= views.take(i as int));
            assert(views.take(i + 1).last() == chunks@[i as int]@);
            lemma_total_len_grows(views, i + 1);
        }
        total =
        match checked_add(total, chunks[i].entry.plaintext_length) {
            Ok(sum) => sum,
            Err(error) => return Err(error),
        };
        i += 1;
    }
    assert(views.take(i as int) =~= views);
    Ok(total)
}

/// The identities of the blobs.
pub open spec fn identities(blobs: Seq<BlobView>) -> Seq<Seq<u8>> {
    Seq::new(blobs.len(), |i: int| blobs[i].blob_id)
}

impl Vault {
    /// The vault's identity.
    pub fn vault_id(&self) -> (r: VaultId)
        ensures
            r@ == self@.vault_id,
    {
        self.vault_id
    }

    /// The identities of the vault's blobs.
    pub fn blob_ids(&self) -> (r: Vec<BlobId>)
        ensures
            r@.len() == self@.blobs.len(),
            forall|i: int|
                0 <= i < r@.len() ==> (#[trigger] r@[i])@ == identities(self@.blobs)[i],
    {
        let mut ids: Vec<BlobId> = Vec::with_capacity(self.blobs.len());
        let mut i: usize = 0;
        while i < self.blobs.len()
            invariant
                i <= self.blobs@.len(),
                ids@.len() == i,
                forall|j: int| 0 <= j < i ==> (#[trigger] ids@[j])@ == self.blobs@[j].blob_id@,
            decreases self.blobs@.len() - i,
        {
            ids.push(self.blobs[i].blob_id);
            i += 1;
        }
        ids
    }

    /// What is known of the blobs.
    pub fn cached_index(&self) -> (r: &VaultIndex)
        ensures
            r@ == self@.index,
    {
        &self.index
    }

    /// Register each blob with an external watcher implementation: the registrar goes through as
    /// many calls of `watch_blob` as there are blobs, one with each blob's identity in order, and
    /// through nothing else.
    pub fn register_blob_watches<R: BlobWatchRegistrar>(&self, registrar: &mut R)
        ensures
            exists|calls: Seq<&mut R>|
                {
                    &&& #[trigger] calls.len() == self.blobs@.len()
                    &&& calls.len() == 0 ==> *final(registrar) == *old(registrar)
                    &&& calls.len() > 0 ==> *calls[0] == *old(registrar)
                    &&& calls.len() > 0 ==> *final(calls.last()) == *final(registrar)
                    &&& forall|i: int|
                        0 < i < calls.len() ==> *final(calls[i - 1]) == *#[trigger] calls[i]
                    &&& forall|i: int|
                        0 <= i < calls.len() ==> call_ensures(
                            R::watch_blob,
                            (#[trigger] calls[i], self.blobs@[i].blob_id),
                            (),
                        )
                },
    {
        let mut i: usize = 0;
        assert(Seq::<&mut R>::empty().len() == 0);
        while i < self.blobs.len()
            invariant
                i <= self.blobs@.len(),
                exists|calls: Seq<&mut R>|
                    {
                        &&& #[trigger] calls.len() == i
                        &&& calls.len() == 0 ==> *registrar == *old(registrar)
                        &&& calls.len() > 0 ==> *calls[0] == *old(registrar)
                        &&& calls.len() > 0 ==> *final(calls.last()) == *registrar
                        &&& forall|k: int|
                            0 < k < calls.len() ==> *final(calls[k - 1]) == *#[trigger] calls[k]
                        &&& forall|k: int|
                            0 <= k < calls.len() ==> call_ensures(
                                R::watch_blob,
                                (#[trigger] calls[k], self.blobs@[k].blob_id),
                                (),
                            )
                    },
            decreases self.blobs@.len() - i,
        {
            let ghost before = *registrar;
            registrar.watch_blob(self.blobs[i].blob_id);
            proof {
                let calls = choose|calls: Seq<&mut R>|
                    {
                        &&& #[trigger] calls.len() == i
                        &&& calls.len() == 0 ==> before == *old(registrar)
                        &&& calls.len() > 0 ==> *calls[0] == *old(registrar)
                        &&& calls.len() > 0 ==> *final(calls.last()) == before
                        &&& forall|k: int|
                            0 < k < calls.len() ==> *final(calls[k - 1]) == *#[trigger] calls[k]
                        &&& forall|k: int|
                            0 <= k < calls.len() ==> call_ensures(
                                R::watch_blob,
                                (#[trigger] calls[k], self.blobs@[k].blob_id),
                                (),
                            )
                    };
                let call = choose|call: &mut R|
                    {
                        &&& *call == before
                        &&& *final(call) == *registrar
                        &&& #[trigger] call_ensures(
                            R::watch_blob,
                            (call, self.blobs@[i as int].blob_id),
                            (),
                        )
                    };
                let more = calls.push(call);
                assert(more.len() == i + 1);
                assert forall|k: int| 0 < k < more.len() implies *final(more[k - 1])
                    == *#[trigger] more[k] by {
                    if k < i {
                        assert(more[k] == calls[k]);
                    }
                }
                assert forall|k: int| 0 <= k < more.len() implies call_ensures(
                    R::watch_blob,
                    (#[trigger] more[k], self.blobs@[k].blob_id),
                    (),
                ) by {
                    if k < i {
                        assert(more[k] == calls[k]);
                    }
                }
            }
            i += 1;
        }
    }

    /// A cursor at the start of a file that is complete.
    pub fn open_file(&self, file_id: FileId) -> (r: Result<VaultFileCursor, VaultError>)
        ensures
            match self@.index.incompleteness(file_id@) {
                Some(error) => r == Err::<VaultFileCursor, VaultError>(error),
                None => r is Ok && r->Ok_0@ == (CursorView { file_id: file_id@, position: 0 }),
            },
    {
        match self.index.ensure_file_complete(file_id) {
            Ok(()) => Ok(VaultFileCursor::at_start(file_id)),
            Err(error) => Err(error),
        }
    }

    /// The size of a file.
    pub fn file_size(&self, file_id: FileId) -> (r: Result<u64, VaultError>)
        ensures
            r == self@.index.size(file_id@),
    {
        self.index.file_size(file_id)
    }

    /// The chunks of a file in order.
    pub fn file_chunks(&self, file_id: FileId) -> (r: Result<Vec<LocatedChunkEntry>, VaultError>)
        ensures
            match r {
                Ok(chunks) => self@.index.ordered(file_id@) == Ok::<Seq<LocatedChunk>, VaultError>(
                    located_chunk_views(chunks@),
                ),
                Err(error) => self@.index.ordered(file_id@) == Err::<
                    Seq<LocatedChunk>,
                    VaultError,
                >(error),
            },
    {
        self.index.ordered_file_chunks(file_id)
    }
}

/// Both list the same chunks, each as often as the other in all.
pub open spec fn same_members<A>(a: Seq<A>, b: Seq<A>) -> bool {
    a.len() == b.len() && forall|x: A| #[trigger] a.contains(x) <==> b.contains(x)
}

/// Ordering chunks by place keeps all of them and puts none in front of one with a smaller place.
pub proof fn lemma_by_number(chunks: Seq<LocatedChunk>)
    ensures
        by_number(chunks).len() == chunks.len(),
        forall|i: int, j: int|
            0 <= i < j < chunks.len() ==> (#[trigger] by_number(chunks)[i]).entry.sequence_number
                <= (#[trigger] by_number(chunks)[j]).entry.sequence_number,
        forall|x: LocatedChunk| #[trigger] by_number(chunks).contains(x) <==> chunks.contains(x),
{
    let keys = numbers_of(chunks);
    let order = order_of(keys);
    let sorted = by_number(chunks);
    law_order_is_stable(keys);
    assert forall|i: int, j: int| 0 <= i < j < chunks.len() implies (
    #[trigger] sorted[i]).entry.sequence_number <= (
    #[trigger] sorted[j]).entry.sequence_number by {
        assert(crate::order::precedes(keys, order[i], order[j]));
        assert(0 <= order[i] < keys.len() && 0 <= order[j] < keys.len());
    }
    assert forall|x: LocatedChunk| #[trigger] sorted.contains(x) <==> chunks.contains(x) by {
        if sorted.contains(x) {
            let i = choose|i: int| 0 <= i < sorted.len() && sorted[i] == x;
            assert(chunks[order[i]] == x);
        }
        if chunks.contains(x) {
            let k = choose|k: int| 0 <= k < chunks.len() && chunks[k] == x;
            assert(order.contains(k));
            let i = choose|i: int| 0 <= i < order.len() && order[i] == k;
            assert(sorted[i] == x);
        }
    }
}

/// Some chunk has the place in the file.
pub open spec fn has_number(chunks: Seq<LocatedChunk>, number: int) -> bool {
    exists|k: int|
        0 <= k < chunks.len() && (#[trigger] chunks[k]).entry.sequence_number == number
}

/// Of more places than there are chunks, one is missing.
proof fn lemma_prefix_misses(sorted: Seq<LocatedChunk>, m: int)
    requires
        0 <= m <= sorted.len(),
        forall|i: int, j: int|
            0 <= i < j < sorted.len() ==> (#[trigger] sorted[i]).entry.sequence_number <= (
            #[trigger] sorted[j]).entry.sequence_number,
    ensures
        exists|v: int| 0 <= v <= m && !#[trigger] has_number(sorted.take(m), v),
    decreases m,
{
    if m == 0 {
        assert(!has_number(sorted.take(m), 0));
    } else if has_number(sorted.take(m), m) {
        let k = choose|k: int|
            0 <= k < m && (#[trigger] sorted.take(m)[k]).entry.sequence_number == m;
        assert(sorted.take(m)[k] == sorted[k]);
        if k < m - 1 {
            assert(sorted[k].entry.sequence_number <= sorted[m - 1].entry.sequence_number);
        }
        lemma_prefix_misses(sorted, m - 1);
        let v = choose|v: int| 0 <= v <= m - 1 && !#[trigger] has_number(sorted.take(m - 1), v);
        if has_number(sorted.take(m), v) {
            let i = choose|i: int|
                0 <= i < m && (#[trigger] sorted.take(m)[i]).entry.sequence_number == v;
            assert(sorted.take(m)[i] == sorted[i]);
            assert(sorted.take(m - 1)[i] == sorted[i]);
        }
        assert(!has_number(sorted.take(m), v));
    } else {
        assert(!has_number(sorted.take(m), m));
    }
}

proof fn lemma_covering_is_numbered_from(sorted: Seq<LocatedChunk>, m: int)
    requires
        0 <= m <= sorted.len(),
        forall|i: int|
            0 <= i < sorted.len() ==> (#[trigger] sorted[i]).entry.sequence_number <= i,
        forall|v: int| 0 <= v < sorted.len() ==> #[trigger] has_number(sorted, v),
    ensures
        forall|i: int|
            m <= i < sorted.len() ==> (#[trigger] sorted[i]).entry.sequence_number == i,
    decreases sorted.len() - m,
{
    if m < sorted.len() {
        lemma_covering_is_numbered_from(sorted, m + 1);
        assert(has_number(sorted, m));
        let k = choose|k: int|
            0 <= k < sorted.len() && (#[trigger] sorted[k]).entry.sequence_number == m;
        assert(sorted[k].entry.sequence_number <= k);
        if k > m {
            assert(sorted[k].entry.sequence_number == k);
        }
        assert(k == m);
    }
}

/// As many chunks as there are places, with one for every place, are all in order once they are
/// ordered by place.
pub proof fn lemma_covering_is_numbered(chunks: Seq<LocatedChunk>)
    requires
        forall|v: int| 0 <= v < chunks.len() ==> #[trigger] has_number(chunks, v),
    ensures
        numbered(by_number(chunks)),
{
    let sorted = by_number(chunks);
    lemma_by_number(chunks);
    assert forall|v: int| 0 <= v < sorted.len() implies #[trigger] has_number(sorted, v) by {
        assert(has_number(chunks, v));
        let k = choose|k: int|
            0 <= k < chunks.len() && (#[trigger] chunks[k]).entry.sequence_number == v;
        assert(chunks.contains(chunks[k]));
        assert(sorted.contains(chunks[k]));
    }
    assert forall|i: int| 0 <= i < sorted.len() implies (
    #[trigger] sorted[i]).entry.sequence_number <= i by {
        if sorted[i].entry.sequence_number > i {
            assert forall|v: int| 0 <= v <= i implies #[trigger] has_number(sorted.take(i), v) by {
                assert(has_number(sorted, v));
                let k = choose|k: int|
                    0 <= k < sorted.len() && (#[trigger] sorted[k]).entry.sequence_number == v;
                if k > i {
                    assert(sorted[i].entry.sequence_number <= sorted[k].entry.sequence_number);
                }
                assert(k < i);
                assert(sorted.take(i)[k] == sorted[k]);
            }
            lemma_prefix_misses(sorted, i);
        }
    }
    lemma_covering_is_numbered_from(sorted, 0);
}

/// A chunk that is listed stands in its place once the chunks are in order.
pub proof fn lemma_numbered_place(chunks: Seq<LocatedChunk>, x: LocatedChunk)
    requires
        numbered(by_number(chunks)),
        chunks.contains(x),
    ensures
        x.entry.sequence_number < chunks.len(),
        by_number(chunks).len() == chunks.len(),
        by_number(chunks)[x.entry.sequence_number as int] == x,
{
    lemma_by_number(chunks);
    assert(by_number(chunks).contains(x));
    let i = choose|i: int| 0 <= i < by_number(chunks).len() && by_number(chunks)[i] == x;
    assert(by_number(chunks)[i].entry.sequence_number == i);
}

proof fn lemma_members_keep_numbering(a: Seq<LocatedChunk>, b: Seq<LocatedChunk>)
    requires
        same_members(a, b),
        numbered(by_number(a)),
    ensures
        numbered(by_number(b)),
        by_number(b) == by_number(a),
{
    lemma_by_number(a);
    assert forall|v: int| 0 <= v < b.len() implies #[trigger] has_number(b, v) by {
        let x = by_number(a)[v];
        assert(x.entry.sequence_number == v);
        assert(by_number(a).contains(x));
        assert(a.contains(x));
        assert(b.contains(x));
        let k = choose|k: int| 0 <= k < b.len() && b[k] == x;
        assert(b[k].entry.sequence_number == v);
    }
    lemma_covering_is_numbered(b);
    lemma_by_number(b);
    assert forall|v: int| 0 <= v < b.len() implies by_number(b)[v] == by_number(a)[v] by {
        let x = by_number(a)[v];
        assert(by_number(a).contains(x));
        assert(a.contains(x));
        assert(b.contains(x));
        lemma_numbered_place(b, x);
    }
    assert(by_number(b) =~= by_number(a));
}

/// The order in which the chunks of a file are listed does not matter.
pub proof fn law_listing_order_does_not_matter(
    a: VaultIndexView,
    b: VaultIndexView,
    file_id: Seq<u8>,
)
    requires
        same_members(a.file_chunks(file_id), b.file_chunks(file_id)),
    ensures
        a.ordered(file_id) == b.ordered(file_id),
        a.size(file_id) == b.size(file_id),
{
    let left = a.file_chunks(file_id);
    let right = b.file_chunks(file_id);
    if numbered(by_number(left)) {
        lemma_members_keep_numbering(left, right);
    } else if numbered(by_number(right)) {
        assert(same_members(right, left));
        lemma_members_keep_numbering(right, left);
    }
}

} // verus!
