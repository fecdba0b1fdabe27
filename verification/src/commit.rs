//! How a write transaction is laid out in a blob and put into an order in which it can be
//! interrupted.
//!
//! New chunks go behind the data tail. Where they fit in front of the index and the new entries
//! fit behind it, the index stays and grows; else it moves behind the end of the file. The
//! volatile slot that is not in force is written last.

use vstd::prelude::*;

use crate::blob::{
    slot_offset, Blob, BlobConfig, BlobView, Locator, LocatorView, AEAD_FRAME_OVERHEAD,
};
use crate::bytes::{append_bytes, checked_add, copy_bytes};
use crate::crypto::{
    blake2b256, blake2b256_digest, index_mac_of, open_frame, random_bytes, stream_xor,
    AEAD_MESSAGE_LIMIT, STREAM_LIMIT,
};
use crate::error::VaultError;
use crate::index::{
    chunk_aad_of, chunk_run_bytes, complete_run_bytes, encode_chunk_entry,
    encode_file_complete_entry, new_chunk_views, new_complete_views, transaction_bytes, IndexView,
    NewChunk, NewChunkView, NewFileComplete,
};
use crate::storage::{request_views, Request, RequestView};
use crate::types::{ChunkEntry, ChunkView, CompleteView};

verus! {

/// The longest plaintext that one chunk may have.
pub const MAX_CHUNK_PLAINTEXT_LEN: u64 = 274_877_906_880;

/// Random bytes are written in pieces of at most this many.
pub const FILL_PIECE_LEN: usize = 8192;

/// A chunk that is sealed for its place.
pub struct PreparedChunk {
    pub entry: ChunkEntry,
    pub frame: Vec<u8>,
}

/// A transaction that is sealed for its place behind the data tail.
pub struct WritePlan {
    pub chunks: Vec<PreparedChunk>,
    pub index_entries: Vec<u8>,
    pub total_chunk_len: u64,
}

/// The entries of the prepared chunks.
pub open spec fn prepared_entries(chunks: Seq<PreparedChunk>) -> Seq<ChunkView> {
    Seq::new(chunks.len(), |i: int| chunks[i].entry@)
}

/// The frames of the prepared chunks.
pub open spec fn prepared_frames(chunks: Seq<PreparedChunk>) -> Seq<Seq<u8>> {
    Seq::new(chunks.len(), |i: int| chunks[i].frame@)
}

/// Bytes that the frames of the chunks take.
pub open spec fn frames_len(chunks: Seq<NewChunkView>) -> int
    decreases chunks.len(),
{
    if chunks.len() == 0 {
        0
    } else {
        frames_len(chunks.drop_last()) + chunks.last().plaintext.len() + AEAD_FRAME_OVERHEAD
    }
}

/// The entry of a chunk whose frame stands at `offset`.
pub open spec fn entry_at(chunk: NewChunkView, offset: int) -> ChunkView {
    ChunkView {
        file_id: chunk.file_id,
        sequence_number: chunk.sequence_number,
        offset_in_blob: offset as u64,
        plaintext_length: chunk.plaintext.len() as u64,
        content_hash: blake2b256_digest(chunk.plaintext),
    }
}

/// The entries of the chunks: their frames stand one behind the other from `tail` on.
pub open spec fn entries_at(chunks: Seq<NewChunkView>, tail: int) -> Seq<ChunkView> {
    Seq::new(
        chunks.len(),
        |i: int| entry_at(chunks[i], tail + frames_len(chunks.take(i))),
    )
}

/// Why the chunks cannot be sealed from `tail` on: the first chunk that is too long, or whose
/// frame ends beyond the largest offset.
pub open spec fn prepare_refusal(chunks: Seq<NewChunkView>, tail: int) -> Option<VaultError>
    decreases chunks.len(),
{
    if chunks.len() == 0 {
        None
    } else if prepare_refusal(chunks.drop_last(), tail) is Some {
        prepare_refusal(chunks.drop_last(), tail)
    } else if chunks.last().plaintext.len() > MAX_CHUNK_PLAINTEXT_LEN {
        Some(VaultError::InvalidChunkSize)
    } else if chunks.last().plaintext.len() > AEAD_MESSAGE_LIMIT {
        Some(VaultError::AeadEncryptFailed)
    } else if tail + frames_len(chunks) > u64::MAX {
        Some(VaultError::IntegerOverflow)
    } else {
        None
    }
}

impl BlobView {
    /// The frame is as long as the entry says, and opens in its place to the plaintext.
    pub open spec fn frame_holds(
        self,
        entry: ChunkView,
        plaintext: Seq<u8>,
        frame: Seq<u8>,
    ) -> bool {
        &&& frame.len() == plaintext.len() + AEAD_FRAME_OVERHEAD
        &&& open_frame(
            self.file_key(entry.file_id),
            frame,
            chunk_aad_of(self.vault_id, self.blob_id, entry),
        ) == Some(plaintext)
    }

    /// The frames hold the chunks, sealed for their places from `tail` on.
    pub open spec fn frames_hold(
        self,
        chunks: Seq<NewChunkView>,
        tail: int,
        frames: Seq<Seq<u8>>,
    ) -> bool {
        &&& frames.len() == chunks.len()
        &&& forall|i: int|
            0 <= i < chunks.len() ==> self.frame_holds(
                entries_at(chunks, tail)[i],
                chunks[i].plaintext,
                #[trigger] frames[i],
            )
    }
}

/// The entries that a transaction adds to the index.
pub open spec fn added_entries(
    chunks: Seq<NewChunkView>,
    completes: Seq<CompleteView>,
    tail: int,
) -> IndexView {
    IndexView { chunks: entries_at(chunks, tail), completed_files: completes }
}

/// The first chunks take no more than all of them.
pub proof fn lemma_frames_len_grows(chunks: Seq<NewChunkView>, i: int)
    requires
        0 <= i <= chunks.len(),
    ensures
        0 <= frames_len(chunks.take(i)) <= frames_len(chunks),
    decreases chunks.len(),
{
    if chunks.len() == 0 {
        assert(chunks.take(i) =~= chunks);
    } else if i == chunks.len() {
        assert(chunks.take(i) =~= chunks);
        lemma_frames_len_grows(chunks.drop_last(), chunks.len() - 1);
        assert(chunks.drop_last().take(chunks.len() - 1) =~= chunks.drop_last());
    } else {
        lemma_frames_len_grows(chunks.drop_last(), i);
        assert(chunks.drop_last().take(i) =~= chunks.take(i));
    }
}

proof fn lemma_refusal_spreads(chunks: Seq<NewChunkView>, tail: int, i: int)
    requires
        0 <= i <= chunks.len(),
        prepare_refusal(chunks.take(i), tail) is Some,
    ensures
        prepare_refusal(chunks, tail) == prepare_refusal(chunks.take(i), tail),
    decreases chunks.len(),
{
    if i == chunks.len() {
        assert(chunks.take(i) =~= chunks);
    } else {
        assert(chunks.drop_last().take(i) =~= chunks.take(i));
        lemma_refusal_spreads(chunks.drop_last(), tail, i);
    }
}

proof fn lemma_entries_extend(chunks: Seq<NewChunkView>, tail: int, i: int)
    requires
        0 <= i < chunks.len(),
    ensures
        entries_at(chunks.take(i + 1), tail) == entries_at(chunks.take(i), tail).push(
            entry_at(chunks[i], tail + frames_len(chunks.take(i))),
        ),
        frames_len(chunks.take(i + 1)) == frames_len(chunks.take(i)) + chunks[i].plaintext.len()
            + AEAD_FRAME_OVERHEAD,
{
    assert(chunks.take(i + 1).drop_last() =~= chunks.take(i));
    assert(chunks.take(i + 1).take(i) =~= chunks.take(i));
    assert forall|j: int| 0 <= j <= i implies #[trigger] entries_at(chunks.take(i + 1), tail)[j]
        == entries_at(chunks.take(i), tail).push(
        entry_at(chunks[i], tail + frames_len(chunks.take(i))),
    )[j] by {
        if j < i {
            assert(chunks.take(i + 1).take(j) =~= chunks.take(j));
            assert(chunks.take(i).take(j) =~= chunks.take(j));
        }
    }
    assert(entries_at(chunks.take(i + 1), tail) =~= entries_at(chunks.take(i), tail).push(
        entry_at(chunks[i], tail + frames_len(chunks.take(i))),
    ));
}

impl Blob {
    /// Seals the chunks for their places behind the data tail and encodes the new index entries.
    pub fn prepare_write(
        &self,
        chunks: &[NewChunk],
        completed_files: &[NewFileComplete],
        data_tail: u64,
    ) -> (r: Result<WritePlan, VaultError>)
        ensures
            match prepare_refusal(new_chunk_views(chunks@), data_tail as int) {
                Some(error) => r == Err::<WritePlan, VaultError>(error),
                None => {
                    &&& r is Ok
                    &&& prepared_entries(r->Ok_0.chunks@) == entries_at(
                        new_chunk_views(chunks@),
                        data_tail as int,
                    )
                    &&& self@.frames_hold(
                        new_chunk_views(chunks@),
                        data_tail as int,
                        prepared_frames(r->Ok_0.chunks@),
                    )
                    &&& r->Ok_0.index_entries@ == transaction_bytes(
                        added_entries(
                            new_chunk_views(chunks@),
                            new_complete_views(completed_files@),
                            data_tail as int,
                        ),
                    )
                    &&& r->Ok_0.total_chunk_len == frames_len(new_chunk_views(chunks@))
                },
            },
    {
        let mut prepared: Vec<PreparedChunk> = Vec::with_capacity(chunks.len());
        let mut index_entries: Vec<u8> = Vec::new();
        let mut total_chunk_len: u64 = 0;
        let mut tail: u64 = data_tail;
        let ghost views = new_chunk_views(chunks@);
        let ghost start = data_tail as int;
        let mut i: usize = 0;
        assert(prepared_entries(prepared@) =~= entries_at(views.take(0), start));
        while i < chunks.len()
            invariant
                i <= chunks@.len(),
                views == new_chunk_views(chunks@),
                start == data_tail,
                prepare_refusal(views.take(i as int), start) is None,
                total_chunk_len == frames_len(views.take(i as int)),
                tail == start + total_chunk_len,
                prepared_entries(prepared@) == entries_at(views.take(i as int), start),
                self@.frames_hold(views.take(i as int), start, prepared_frames(prepared@)),
                index_entries@ == chunk_run_bytes(entries_at(views.take(i as int), start)),
            decreases chunks@.len() - i,
        {
            let ghost done = views.take(i as int);
            let ghost next = views.take(i + 1);
            let ghost old_prepared = prepared@;
            proof {
                lemma_entries_extend(views, start, i as int);
                assert(next.drop_last() =~= done);
                assert(next.last() == chunks@[i as int]@);
                if prepare_refusal(next, start) is Some {
                    lemma_refusal_spreads(views, start, i + 1);
                }
            }
            let chunk = &chunks[i];
            if chunk.plaintext.len() as u64 > MAX_CHUNK_PLAINTEXT_LEN {
                return Err(VaultError::InvalidChunkSize);
            }
            let entry = ChunkEntry {
                file_id: chunk.file_id,
                sequence_number: chunk.sequence_number,
                offset_in_blob: tail,
                plaintext_length: chunk.plaintext.len() as u64,
                content_hash: blake2b256(&chunk.plaintext),
            };
            let frame = match self.encrypt_chunk(&entry, &chunk.plaintext) {
                Ok(frame) => frame,
                Err(error) => return Err(error),
            };
            total_chunk_len = match checked_add(total_chunk_len, frame.len() as u64) {
                Ok(sum) => sum,
                Err(error) => return Err(error),
            };
            tail = match checked_add(tail, frame.len() as u64) {
                Ok(sum) => sum,
                Err(error) => return Err(error),
            };
            encode_chunk_entry(&entry, &mut index_entries);
            assert(entry@ =~= entry_at(views[i as int], start + frames_len(done)));
            prepared.push(PreparedChunk { entry, frame });
            proof {
                let entries = entries_at(next, start);
                assert(prepared_entries(prepared@) =~= entries);
                assert(entries.drop_last() =~= entries_at(done, start));
                let frames = prepared_frames(prepared@);
                assert forall|j: int| 0 <= j < next.len() implies self@.frame_holds(
                    entries[j],
                    next[j].plaintext,
                    #[trigger] frames[j],
                ) by {
                    if j < i {
                        assert(prepared_frames(old_prepared)[j] == frames[j]);
                        assert(entries_at(done, start)[j] == entries[j]);
                        assert(done[j] == next[j]);
                    }
                }
            }
            i += 1;
        }
        assert(views.take(i as int) =~= views);
        let mut k: usize = 0;
        let ghost completes = new_complete_views(completed_files@);
        let ghost front = index_entries@;
        assert(front =~= front + complete_run_bytes(completes.take(0)));
        while k < completed_files.len()
            invariant
                k <= completed_files@.len(),
                completes == new_complete_views(completed_files@),
                index_entries@ == front + complete_run_bytes(completes.take(k as int)),
            decreases completed_files@.len() - k,
        {
            encode_file_complete_entry(&completed_files[k], &mut index_entries);
            k += 1;
            assert(completes.take(k as int).drop_last() =~= completes.take(k - 1));
            assert(index_entries@ =~= front + complete_run_bytes(completes.take(k as int)));
        }
        assert(completes.take(k as int) =~= completes);
        Ok(WritePlan { chunks: prepared, index_entries, total_chunk_len })
    }
}

/// Where a transaction goes.
#[verifier::ext_equal]
pub struct Placement {
    /// The index moves.
    pub relocate: bool,
    /// Where the index stands afterwards.
    pub index_offset: int,
    /// How long the file is to be before anything else is written; random bytes fill it up.
    pub filled_len: int,
}

/// Where a transaction of `chunk_len` bytes of frames and `entry_len` bytes of index entries goes,
/// in a blob whose data end at `tail` and whose file is `eof` bytes long.
///
/// The index stays where the frames fit in front of it and the entries behind it. Else it moves
/// behind the end of the file, far enough from the data for the frames and the configured
/// padding.
pub open spec fn placement(
    config: BlobConfig,
    locator: LocatorView,
    tail: int,
    chunk_len: int,
    entry_len: int,
    eof: int,
) -> Result<Placement, VaultError> {
    let index_end = locator.index_offset + locator.index_length;
    let new_len = locator.index_length + entry_len;
    let wanted = tail + chunk_len + config.relocation_leading_padding;
    let moved = if wanted > eof {
        wanted
    } else {
        eof
    };
    let filled_len = moved + new_len + config.relocation_trailing_padding;
    let leading_gap = if locator.index_offset > tail {
        locator.index_offset - tail
    } else {
        0
    };
    if index_end > u64::MAX {
        Err(VaultError::IntegerOverflow)
    } else if index_end > eof {
        Err(VaultError::IndexChainBroken)
    } else if locator.generation == u64::MAX || new_len > STREAM_LIMIT {
        Err(VaultError::IntegerOverflow)
    } else if chunk_len <= leading_gap && entry_len <= eof - index_end {
        Ok(
            Placement {
                relocate: false,
                index_offset: locator.index_offset as int,
                filled_len: eof,
            },
        )
    } else if filled_len > u64::MAX {
        Err(VaultError::IntegerOverflow)
    } else {
        Ok(Placement { relocate: true, index_offset: moved, filled_len })
    }
}

/// Wherever a transaction goes, its frames end in front of the index and the index ends inside the
/// file. A move of the index leaves the configured padding on both sides of it.
pub proof fn law_placement_leaves_room(
    config: BlobConfig,
    locator: LocatorView,
    tail: int,
    chunk_len: int,
    entry_len: int,
    eof: int,
    place: Placement,
)
    requires
        0 <= tail <= locator.index_offset,
        0 <= chunk_len,
        0 <= entry_len,
        placement(config, locator, tail, chunk_len, entry_len, eof) == Ok::<Placement, VaultError>(
            place,
        ),
    ensures
        tail + chunk_len <= place.index_offset,
        place.index_offset + locator.index_length + entry_len <= place.filled_len,
        !place.relocate ==> place.index_offset + locator.index_length + entry_len <= eof
            && eof == place.filled_len,
        place.relocate ==> {
            &&& place.index_offset >= eof
            &&& place.index_offset - (tail + chunk_len) >= config.relocation_leading_padding
            &&& place.filled_len - (place.index_offset + locator.index_length + entry_len)
                == config.relocation_trailing_padding
        },
{
}

/// Writes the pieces one behind the other from `offset` on.
pub open spec fn run_writes(offset: int, pieces: Seq<Seq<u8>>) -> Seq<RequestView>
    decreases pieces.len(),
{
    if pieces.len() == 0 {
        Seq::empty()
    } else {
        run_writes(offset, pieces.drop_last()).push(
            RequestView::Write {
                offset: (offset + joined(pieces.drop_last()).len()) as u64,
                bytes: pieces.last(),
            },
        )
    }
}

/// The pieces one behind the other.
pub open spec fn joined(pieces: Seq<Seq<u8>>) -> Seq<u8>
    decreases pieces.len(),
{
    if pieces.len() == 0 {
        Seq::empty()
    } else {
        joined(pieces.drop_last()) + pieces.last()
    }
}

/// What a transaction writes, once it is sealed and placed.
#[verifier::ext_equal]
pub struct Sealed {
    /// The frames of the new chunks.
    pub frames: Seq<Seq<u8>>,
    /// Random pieces that make the file longer.
    pub fill: Seq<Seq<u8>>,
    /// The ciphertext of the index as it is.
    pub ciphertext: Seq<u8>,
    /// The ciphertext of the new entries.
    pub entries: Seq<u8>,
    /// The new volatile slot.
    pub slot: Seq<u8>,
}

/// What comes before the volatile slot is written. Where the index stays: the frames, then the
/// entries behind the index. Where it moves: room at the end of the file, the index as it is,
/// then the entries behind it, then the frames.
pub open spec fn body_script(
    place: Placement,
    tail: int,
    eof: int,
    sealed: Sealed,
) -> Seq<RequestView> {
    let entries = seq![
        RequestView::Write {
            offset: (place.index_offset + sealed.ciphertext.len()) as u64,
            bytes: sealed.entries,
        },
        RequestView::Sync,
    ];
    let frames = run_writes(tail, sealed.frames).push(RequestView::Sync);
    if place.relocate {
        run_writes(eof, sealed.fill) + seq![
            RequestView::Write {
                offset: place.index_offset as u64,
                bytes: sealed.ciphertext,
            },
            RequestView::Sync,
        ] + entries + frames
    } else {
        frames + entries
    }
}

/// The whole transaction: the body, then the volatile slot that is not in force, which commits it.
pub open spec fn commit_script(
    place: Placement,
    locator: LocatorView,
    tail: int,
    eof: int,
    sealed: Sealed,
) -> Seq<RequestView> {
    body_script(place, tail, eof, sealed) + seq![
        RequestView::Write {
            offset: slot_offset((1 - locator.slot_index) as u8),
            bytes: sealed.slot,
        },
        RequestView::Sync,
    ]
}

impl BlobView {
    /// The locator that commits a transaction.
    pub open spec fn next_locator(
        self,
        place: Placement,
        locator: LocatorView,
        ciphertext: Seq<u8>,
    ) -> LocatorView {
        LocatorView {
            generation: (locator.generation + 1) as u64,
            index_offset: place.index_offset as u64,
            index_length: ciphertext.len() as u64,
            index_mac: index_mac_of(
                self.keys.k_mac,
                self.vault_id,
                self.blob_id,
                (locator.generation + 1) as u64,
                ciphertext.len() as u64,
                ciphertext,
            ),
            slot_index: (1 - locator.slot_index) as u8,
        }
    }

    /// The parts are those of a transaction that appends `added` to the index plaintext: the
    /// entries go on in the index stream, the slot says where the index then is, and the random
    /// pieces fill the file up to the length that was placed.
    pub open spec fn seals(
        self,
        place: Placement,
        locator: LocatorView,
        added: Seq<u8>,
        eof: int,
        sealed: Sealed,
    ) -> bool {
        &&& sealed.ciphertext.len() == locator.index_length
        &&& sealed.entries == stream_xor(
            self.keys.k_index,
            self.keys.index_nonce,
            locator.index_length as int,
            added,
        )
        &&& joined(sealed.fill).len() == place.filled_len - eof
        &&& forall|i: int|
            0 <= i < sealed.fill.len() ==> 0 < (#[trigger] sealed.fill[i]).len() <= FILL_PIECE_LEN
        &&& sealed.slot.len() == 1024
        &&& self.slot_locator((1 - locator.slot_index) as u8, sealed.slot) == Some(
            self.next_locator(place, locator, sealed.ciphertext + sealed.entries),
        )
    }
}

/// A transaction in the order in which it is to be carried out, and the locator that commits it.
pub struct CommitPlan {
    pub requests: Vec<Request>,
    pub locator: Locator,
}

impl BlobView {
    /// The plan carries out the transaction of these parts, and its locator is the one that the
    /// new slot holds.
    pub open spec fn commits(
        self,
        place: Placement,
        locator: LocatorView,
        added: Seq<u8>,
        tail: int,
        eof: int,
        sealed: Sealed,
        plan: CommitPlan,
    ) -> bool {
        &&& self.seals(place, locator, added, eof, sealed)
        &&& request_views(plan.requests@) == commit_script(place, locator, tail, eof, sealed)
        &&& plan.locator@ == self.next_locator(
            place,
            locator,
            sealed.ciphertext + sealed.entries,
        )
    }

    /// The plan carries out a transaction of these frames, on an index of this ciphertext.
    pub open spec fn planned(
        self,
        place: Placement,
        locator: LocatorView,
        added: Seq<u8>,
        tail: int,
        eof: int,
        frames: Seq<Seq<u8>>,
        ciphertext: Seq<u8>,
        plan: CommitPlan,
    ) -> bool {
        exists|sealed: Sealed|
            sealed.frames == frames && sealed.ciphertext == ciphertext && #[trigger] self.commits(
                place,
                locator,
                added,
                tail,
                eof,
                sealed,
                plan,
            )
    }
}

/// The contents of the pieces.
pub open spec fn piece_views(pieces: Seq<Vec<u8>>) -> Seq<Seq<u8>> {
    Seq::new(pieces.len(), |i: int| pieces[i]@)
}

/// Random bytes in pieces.
pub fn fill_pieces(len: u64) -> (r: Vec<Vec<u8>>)
    ensures
        joined(piece_views(r@)).len() == len,
        forall|i: int|
            0 <= i < r@.len() ==> 0 < (#[trigger] piece_views(r@)[i]).len() <= FILL_PIECE_LEN,
{
    let mut pieces: Vec<Vec<u8>> = Vec::new();
    let mut remaining: u64 = len;
    while remaining > 0
        invariant
            joined(piece_views(pieces@)).len() + remaining == len,
            forall|i: int|
                0 <= i < pieces@.len() ==> 0 < (#[trigger] piece_views(pieces@)[i]).len()
                    <= FILL_PIECE_LEN,
        decreases remaining,
    {
        let n: usize = if remaining < FILL_PIECE_LEN as u64 {
            remaining as usize
        } else {
            FILL_PIECE_LEN
        };
        let ghost before = piece_views(pieces@);
        let piece = random_bytes(n);
        pieces.push(piece);
        remaining = remaining - n as u64;
        proof {
            assert(piece_views(pieces@).drop_last() =~= before);
            assert forall|i: int| 0 <= i < pieces@.len() implies 0 < (#[trigger] piece_views(
                pieces@,
            )[i]).len() <= FILL_PIECE_LEN by {
                if i < before.len() {
                    assert(piece_views(pieces@)[i] == before[i]);
                }
            }
        }
    }
    pieces
}

/// Appends one request.
pub fn push_request(requests: &mut Vec<Request>, request: Request)
    ensures
        request_views(final(requests)@) == request_views(old(requests)@).push(request@),
{
    requests.push(request);
    assert(request_views(requests@) =~= request_views(old(requests)@).push(request@));
}

/// Appends the requests that write the pieces one behind the other from `offset` on.
pub fn push_run(requests: &mut Vec<Request>, offset: u64, pieces: &Vec<Vec<u8>>)
    requires
        offset + joined(piece_views(pieces@)).len() <= u64::MAX,
    ensures
        request_views(final(requests)@) == request_views(old(requests)@) + run_writes(
            offset as int,
            piece_views(pieces@),
        ),
{
    let ghost views = piece_views(pieces@);
    let ghost front = request_views(requests@);
    let mut at: u64 = offset;
    let mut i: usize = 0;
    assert(front + run_writes(offset as int, views.take(0)) =~= front);
    assert(views.take(0) =~= Seq::empty());
    while i < pieces.len()
        invariant
            i <= pieces@.len(),
            views == piece_views(pieces@),
            offset + joined(views).len() <= u64::MAX,
            at == offset + joined(views.take(i as int)).len(),
            request_views(requests@) == front + run_writes(offset as int, views.take(i as int)),
        decreases pieces@.len() - i,
    {
        let ghost before = requests@;
        proof {
            assert(views.take(i + 1).drop_last() =~= views.take(i as int));
            lemma_joined_grows(views, i + 1);
        }
        requests.push(Request::Write { offset: at, bytes: copy_bytes(&pieces[i]) });
        at = at + pieces[i].len() as u64;
        i += 1;
        proof {
            assert(request_views(requests@) =~= request_views(before).push(requests@.last()@));
            assert(request_views(requests@) =~= front + run_writes(
                offset as int,
                views.take(i as int),
            ));
        }
    }
    assert(views.take(i as int) =~= views);
}

proof fn lemma_joined_grows(pieces: Seq<Seq<u8>>, i: int)
    requires
        0 <= i <= pieces.len(),
    ensures
        joined(pieces.take(i)).len() <= joined(pieces).len(),
    decreases pieces.len(),
{
    if i == pieces.len() {
        assert(pieces.take(i) =~= pieces);
    } else {
        assert(pieces.drop_last().take(i) =~= pieces.take(i));
        lemma_joined_grows(pieces.drop_last(), i);
    }
}

/// The frames of a plan end within the largest offset when they stand from `tail` on.
pub open spec fn plan_fits(plan: WritePlan, tail: int) -> bool {
    &&& joined(prepared_frames(plan.chunks@)).len() == plan.total_chunk_len
    &&& tail + plan.total_chunk_len <= u64::MAX
}

impl Blob {
    /// Places a prepared transaction and puts it into order. `ciphertext` is the index as it
    /// stands at `locator`, `eof` the length of the file.
    pub fn plan_commit(
        &self,
        locator: &Locator,
        ciphertext: &[u8],
        plan: &WritePlan,
        data_tail: u64,
        eof: u64,
    ) -> (r: Result<CommitPlan, VaultError>)
        requires
            ciphertext@.len() == locator.index_length,
            locator.slot_index <= 1,
            plan_fits(*plan, data_tail as int),
        ensures
            match placement(
                self@.config,
                locator@,
                data_tail as int,
                plan.total_chunk_len as int,
                plan.index_entries@.len() as int,
                eof as int,
            ) {
                Err(error) => r == Err::<CommitPlan, VaultError>(error),
                Ok(place) => {
                    &&& r is Ok
                    &&& self@.planned(
                        place,
                        locator@,
                        plan.index_entries@,
                        data_tail as int,
                        eof as int,
                        prepared_frames(plan.chunks@),
                        ciphertext@,
                        r->Ok_0,
                    )
                },
            },
    {
        let entry_len: u64 = plan.index_entries.len() as u64;
        let chunk_len: u64 = plan.total_chunk_len;
        let index_end: u64 = match checked_add(locator.index_offset, locator.index_length) {
            Ok(end) => end,
            Err(error) => return Err(error),
        };
        if index_end > eof {
            return Err(VaultError::IndexChainBroken);
        }
        if locator.generation == u64::MAX {
            return Err(VaultError::IntegerOverflow);
        }
        let entries = match self.encrypt_index_entries(locator.index_length, &plan.index_entries) {
            Ok(entries) => entries,
            Err(error) => return Err(error),
        };
        let trailing_gap: u64 = eof - index_end;
        let leading_gap: u64 = if locator.index_offset > data_tail {
            locator.index_offset - data_tail
        } else {
            0
        };
        let relocate = chunk_len > leading_gap || entry_len > trailing_gap;
        let mut index_offset: u64 = locator.index_offset;
        let mut filled_len: u64 = eof;
        if relocate {
            let (moved, filled) = match self.relocation(
                data_tail,
                chunk_len,
                locator.index_length + entry_len,
                eof,
            ) {
                Ok(target) => target,
                Err(error) => return Err(error),
            };
            index_offset = moved;
            filled_len = filled;
        }
        let mut new_ciphertext: Vec<u8> = copy_bytes(ciphertext);
        append_bytes(&mut new_ciphertext, &entries);
        let index_mac = match self.index_mac(locator.generation + 1, &new_ciphertext) {
            Ok(mac) => mac,
            Err(error) => return Err(error),
        };
        let new_locator = Locator {
            generation: locator.generation + 1,
            index_offset,
            index_length: new_ciphertext.len() as u64,
            index_mac,
            slot_index: 1 - locator.slot_index,
        };
        let slot = match self.make_volatile_slot(&new_locator) {
            Ok(slot) => slot,
            Err(error) => return Err(error),
        };
        let fill = fill_pieces(filled_len - eof);
        let frames = copy_frames(&plan.chunks);
        let ghost place = Placement {
            relocate,
            index_offset: index_offset as int,
            filled_len: filled_len as int,
        };
        let ghost sealed = Sealed {
            frames: prepared_frames(plan.chunks@),
            fill: piece_views(fill@),
            ciphertext: ciphertext@,
            entries: entries@,
            slot: slot@,
        };
        let mut requests: Vec<Request> = Vec::new();
        if relocate {
            push_run(&mut requests, eof, &fill);
            push_request(
                &mut requests,
                Request::Write { offset: index_offset, bytes: copy_bytes(ciphertext) },
            );
            push_request(&mut requests, Request::Sync);
            push_request(
                &mut requests,
                Request::Write {
                    offset: index_offset + locator.index_length,
                    bytes: entries,
                },
            );
            push_request(&mut requests, Request::Sync);
            push_run(&mut requests, data_tail, &frames);
            push_request(&mut requests, Request::Sync);
        } else {
            push_run(&mut requests, data_tail, &frames);
            push_request(&mut requests, Request::Sync);
            push_request(&mut requests, Request::Write { offset: index_end, bytes: entries });
            push_request(&mut requests, Request::Sync);
        }
        assert(request_views(requests@) =~= body_script(
            place,
            data_tail as int,
            eof as int,
            sealed,
        ));
        let offset = if new_locator.slot_index == 0 {
            crate::blob::VOLATILE_A_OFFSET
        } else {
            crate::blob::VOLATILE_B_OFFSET
        };
        push_request(&mut requests, Request::Write { offset, bytes: slot });
        push_request(&mut requests, Request::Sync);
        let commit = CommitPlan { requests, locator: new_locator };
        proof {
            assert(request_views(commit.requests@) =~= commit_script(
                place,
                locator@,
                data_tail as int,
                eof as int,
                sealed,
            ));
            assert(commit.locator@ =~= self@.next_locator(
                place,
                locator@,
                sealed.ciphertext + sealed.entries,
            ));
            assert(self@.commits(
                place,
                locator@,
                plan.index_entries@,
                data_tail as int,
                eof as int,
                sealed,
                commit,
            ));
        }
        Ok(commit)
    }

    /// Where the index moves to, and how long the file is to be then.
    fn relocation(&self, data_tail: u64, chunk_len: u64, index_len: u64, eof: u64) -> (r: Result<
        (u64, u64),
        VaultError,
    >)
        ensures
            ({
                let wanted = data_tail + chunk_len + self.config.relocation_leading_padding;
                let moved = if wanted > eof {
                    wanted
                } else {
                    eof as int
                };
                let filled = moved + index_len + self.config.relocation_trailing_padding;
                if filled > u64::MAX {
                    r == Err::<(u64, u64), VaultError>(VaultError::IntegerOverflow)
                } else {
                    r == Ok::<(u64, u64), VaultError>((moved as u64, filled as u64))
                }
            }),
    {
        let room: u64 = match checked_add(chunk_len, self.config.relocation_leading_padding) {
            Ok(sum) => sum,
            Err(error) => return Err(error),
        };
        let wanted: u64 = match checked_add(data_tail, room) {
            Ok(sum) => sum,
            Err(error) => return Err(error),
        };
        let moved: u64 = if wanted > eof {
            wanted
        } else {
            eof
        };
        let behind: u64 = match checked_add(index_len, self.config.relocation_trailing_padding) {
            Ok(sum) => sum,
            Err(error) => return Err(error),
        };
        match checked_add(moved, behind) {
            Ok(filled) => Ok((moved, filled)),
            Err(error) => Err(error),
        }
    }
}

/// The frames of the prepared chunks.
fn copy_frames(chunks: &Vec<PreparedChunk>) -> (r: Vec<Vec<u8>>)
    ensures
        piece_views(r@) == prepared_frames(chunks@),
{
    let mut frames: Vec<Vec<u8>> = Vec::with_capacity(chunks.len());
    let mut i: usize = 0;
    while i < chunks.len()
        invariant
            i <= chunks@.len(),
            frames@.len() == i,
            forall|j: int| 0 <= j < i ==> (#[trigger] frames@[j])@ == chunks@[j].frame@,
        decreases chunks@.len() - i,
    {
        frames.push(copy_bytes(&chunks[i].frame));
        i += 1;
    }
    assert(piece_views(frames@) =~= prepared_frames(chunks@));
    frames
}

} // verus!
