//! What a blob file promises at rest, and what a transaction keeps of it.
//!
//! A file is consistent when its active locator points at an index that is authentic and decodes,
//! and every chunk that the index lists is on disk in front of the index and opens. A transaction
//! leads from one consistent file to the next, and leaves every committed chunk alone on the way.

use vstd::prelude::*;

use crate::blob::{
    chunk_end, chunk_ends_fit, data_tail_of, slot_offset, BlobView, LocatorView, FRONT_MATTER_LEN,
    VOLATILE_SLOT_LEN,
};
use crate::commit::{
    added_entries, body_script, commit_script, entries_at, frames_len, joined, placement,
    prepare_refusal, run_writes, Placement, Sealed,
};
use crate::crypto::{law_stream_extends, law_stream_is_its_own_inverse, stream_xor};
use crate::error::VaultError;
use crate::index::{
    law_decoding_appends, law_transaction_decodes, transaction_bytes, IndexView, NewChunkView,
};
use crate::storage::{after, after_all, lemma_after_all_concat, write_at, RequestView};
use crate::types::{ChunkView, CompleteView};

verus! {

/// The two volatile slots of a file.
pub open spec fn slots_in(image: Seq<u8>) -> Seq<u8> {
    image.subrange(2048, 4096)
}

/// The index ciphertext that a locator points at.
pub open spec fn index_bytes(locator: LocatorView, image: Seq<u8>) -> Seq<u8> {
    image.subrange(
        locator.index_offset as int,
        locator.index_offset + locator.index_length,
    )
}

/// The frame that an entry points at.
pub open spec fn frame_in(entry: ChunkView, image: Seq<u8>) -> Seq<u8> {
    image.subrange(entry.offset_in_blob as int, chunk_end(entry))
}

impl BlobView {
    /// The locator that is in force: the valid one with the highest generation.
    pub open spec fn active(self, image: Seq<u8>) -> LocatorView {
        self.locators(slots_in(image))[0]
    }

    /// The index that is in force, with its plaintext.
    pub open spec fn stored(self, image: Seq<u8>) -> Result<(IndexView, Seq<u8>), VaultError> {
        self.index_of(self.active(image), index_bytes(self.active(image), image))
    }

    /// The entries that are in force.
    pub open spec fn entries(self, image: Seq<u8>) -> IndexView {
        self.stored(image)->Ok_0.0
    }

    /// What a chunk reads as.
    pub open spec fn stored_chunk(self, entry: ChunkView, image: Seq<u8>) -> Result<
        Seq<u8>,
        VaultError,
    > {
        self.chunk_of(entry, frame_in(entry, image))
    }

    /// The chunk's frame is on disk, in the body and in front of the index.
    pub open spec fn on_disk(self, entry: ChunkView, image: Seq<u8>) -> bool {
        &&& FRONT_MATTER_LEN <= entry.offset_in_blob
        &&& chunk_end(entry) <= self.active(image).index_offset
        &&& self.stored_chunk(entry, image) is Ok
    }

    /// The active locator points at an authentic index behind the front matter, and every frame
    /// that the index lists ends within the largest offset. Whether the frames are there is another
    /// matter.
    pub open spec fn indexed(self, image: Seq<u8>) -> bool {
        let locator = self.active(image);
        &&& FRONT_MATTER_LEN <= image.len() <= u64::MAX
        &&& self.locators(slots_in(image)).len() > 0
        &&& FRONT_MATTER_LEN <= locator.index_offset
        &&& locator.index_offset + locator.index_length <= image.len()
        &&& self.stored(image) is Ok
        &&& chunk_ends_fit(self.entries(image).chunks)
    }

    /// The active locator points at an authentic index, and every chunk of it is on disk.
    pub open spec fn consistent(self, image: Seq<u8>) -> bool {
        &&& self.indexed(image)
        &&& forall|i: int|
            0 <= i < self.entries(image).chunks.len() ==> self.on_disk(
                #[trigger] self.entries(image).chunks[i],
                image,
            )
    }

    /// These parts are those of a transaction on this file that adds the chunks and completions.
    pub open spec fn transaction(
        self,
        image: Seq<u8>,
        chunks: Seq<NewChunkView>,
        completes: Seq<CompleteView>,
        place: Placement,
        sealed: Sealed,
    ) -> bool {
        let locator = self.active(image);
        let tail = data_tail_of(self.entries(image).chunks);
        let added = added_entries(chunks, completes, tail);
        &&& prepare_refusal(chunks, tail) is None
        &&& placement(
            self.config,
            locator,
            tail,
            frames_len(chunks),
            transaction_bytes(added).len() as int,
            image.len() as int,
        ) == Ok::<Placement, VaultError>(place)
        &&& self.frames_hold(chunks, tail, sealed.frames)
        &&& sealed.ciphertext == index_bytes(locator, image)
        &&& self.seals(place, locator, transaction_bytes(added), image.len() as int, sealed)
    }

    /// The requests of the transaction.
    pub open spec fn script(self, image: Seq<u8>, place: Placement, sealed: Sealed) -> Seq<
        RequestView,
    > {
        commit_script(
            place,
            self.active(image),
            data_tail_of(self.entries(image).chunks),
            image.len() as int,
            sealed,
        )
    }

    /// A transaction was carried out.
    pub open spec fn wrote(
        self,
        image: Seq<u8>,
        chunks: Seq<NewChunkView>,
        completes: Seq<CompleteView>,
        place: Placement,
        sealed: Sealed,
        out: Seq<u8>,
    ) -> bool {
        &&& self.transaction(image, chunks, completes, place, sealed)
        &&& entries_sized(
            added_entries(chunks, completes, data_tail_of(self.entries(image).chunks)),
        )
        &&& out == after_all(image, self.script(image, place, sealed))
    }

    /// The frames of these chunks are not written over the index: they fit in front of it, or there
    /// is nothing of it.
    pub open spec fn spares_index(self, image: Seq<u8>, chunks: Seq<NewChunkView>) -> bool {
        ||| self.active(image).index_length == 0
        ||| data_tail_of(self.entries(image).chunks) + frames_len(chunks) <= self.active(
            image,
        ).index_offset
    }

    /// No slot in force says that the index begins within the front matter, where the slots of
    /// later transactions would be written over it.
    pub open spec fn index_clear(self, image: Seq<u8>) -> bool {
        self.locators(slots_in(image)).len() > 0 ==> FRONT_MATTER_LEN <= self.active(
            image,
        ).index_offset
    }
}

/// Identities and hashes in the entries have their full width.
pub open spec fn entries_sized(index: IndexView) -> bool {
    &&& forall|i: int| 0 <= i < index.chunks.len() ==> (#[trigger] index.chunks[i]).sized()
    &&& forall|i: int|
        0 <= i < index.completed_files.len() ==> (#[trigger] index.completed_files[i]).sized()
}

/// The request writes nothing between `start` and `end`.
pub open spec fn spares(request: RequestView, start: int, end: int) -> bool {
    match request {
        RequestView::Truncate => false,
        RequestView::Write { offset, bytes } => end <= offset || offset + bytes.len() <= start,
        _ => true,
    }
}

/// None of the requests writes between `start` and `end`.
pub open spec fn all_spare(requests: Seq<RequestView>, start: int, end: int) -> bool {
    forall|i: int| 0 <= i < requests.len() ==> spares(#[trigger] requests[i], start, end)
}

proof fn lemma_spared_is_kept(
    image: Seq<u8>,
    requests: Seq<RequestView>,
    start: int,
    end: int,
)
    requires
        0 <= start <= end <= image.len(),
        all_spare(requests, start, end),
    ensures
        after_all(image, requests).len() >= image.len(),
        after_all(image, requests).subrange(start, end) == image.subrange(start, end),
    decreases requests.len(),
{
    if requests.len() > 0 {
        let front = requests.drop_last();
        assert forall|i: int| 0 <= i < front.len() implies spares(
            #[trigger] front[i],
            start,
            end,
        ) by {
            assert(front[i] == requests[i]);
        }
        lemma_spared_is_kept(image, front, start, end);
        let before = after_all(image, front);
        assert(spares(requests[requests.len() - 1], start, end));
        assert forall|i: int| start <= i < end implies after(before, requests.last())[i]
            == before[i] by {}
        assert(after(before, requests.last()).subrange(start, end) =~= before.subrange(start, end));
    }
}

proof fn lemma_run_spares(offset: int, pieces: Seq<Seq<u8>>, start: int, end: int)
    requires
        0 <= offset,
        offset + joined(pieces).len() <= u64::MAX,
        end <= offset || offset + joined(pieces).len() <= start,
    ensures
        all_spare(run_writes(offset, pieces), start, end),
    decreases pieces.len(),
{
    if pieces.len() > 0 {
        lemma_run_spares(offset, pieces.drop_last(), start, end);
        let front = run_writes(offset, pieces.drop_last());
        let all = run_writes(offset, pieces);
        assert forall|i: int| 0 <= i < all.len() implies spares(#[trigger] all[i], start, end) by {
            if i < front.len() {
                assert(all[i] == front[i]);
            }
        }
    }
}

proof fn lemma_write_at_joins(image: Seq<u8>, offset: int, a: Seq<u8>, b: Seq<u8>)
    requires
        0 <= offset,
    ensures
        write_at(write_at(image, offset, a), offset + a.len(), b) == write_at(
            image,
            offset,
            a + b,
        ),
{
    if a.len() == 0 {
        assert(a + b =~= b);
    } else if b.len() == 0 {
        assert(a + b =~= a);
    } else {
        assert(write_at(write_at(image, offset, a), offset + a.len(), b) =~= write_at(
            image,
            offset,
            a + b,
        ));
    }
}

/// Writing pieces one behind the other writes what they are together.
pub proof fn lemma_run_writes(image: Seq<u8>, offset: int, pieces: Seq<Seq<u8>>)
    requires
        0 <= offset,
        offset + joined(pieces).len() <= u64::MAX,
    ensures
        after_all(image, run_writes(offset, pieces)) == write_at(image, offset, joined(pieces)),
    decreases pieces.len(),
{
    if pieces.len() > 0 {
        lemma_run_writes(image, offset, pieces.drop_last());
        let front = run_writes(offset, pieces.drop_last());
        assert(run_writes(offset, pieces).drop_last() =~= front);
        lemma_write_at_joins(image, offset, joined(pieces.drop_last()), pieces.last());
    }
}

/// No chunk ends behind the data tail.
pub proof fn lemma_data_tail_covers(chunks: Seq<ChunkView>, i: int)
    requires
        0 <= i < chunks.len(),
    ensures
        chunk_end(chunks[i]) <= data_tail_of(chunks),
    decreases chunks.len(),
{
    if i < chunks.len() - 1 {
        lemma_data_tail_covers(chunks.drop_last(), i);
        assert(chunks.drop_last()[i] == chunks[i]);
    }
}

proof fn lemma_data_tail_bounded(chunks: Seq<ChunkView>, bound: int)
    requires
        FRONT_MATTER_LEN <= bound,
        forall|i: int| 0 <= i < chunks.len() ==> chunk_end(#[trigger] chunks[i]) <= bound,
    ensures
        FRONT_MATTER_LEN <= data_tail_of(chunks) <= bound,
    decreases chunks.len(),
{
    if chunks.len() > 0 {
        assert forall|i: int| 0 <= i < chunks.drop_last().len() implies chunk_end(
            #[trigger] chunks.drop_last()[i],
        ) <= bound by {
            assert(chunks.drop_last()[i] == chunks[i]);
        }
        lemma_data_tail_bounded(chunks.drop_last(), bound);
        assert(chunk_end(chunks[chunks.len() - 1]) <= bound);
    }
}

/// The data of a consistent file end in front of its index.
pub proof fn lemma_tail_in_front_of_index(b: BlobView, image: Seq<u8>)
    requires
        b.consistent(image),
    ensures
        FRONT_MATTER_LEN <= data_tail_of(b.entries(image).chunks) <= b.active(image).index_offset,
{
    let chunks = b.entries(image).chunks;
    assert forall|i: int| 0 <= i < chunks.len() implies chunk_end(#[trigger] chunks[i])
        <= b.active(image).index_offset by {
        assert(b.on_disk(b.entries(image).chunks[i], image));
    }
    lemma_data_tail_bounded(chunks, b.active(image).index_offset as int);
}

/// The first frames are as long together as their chunks say.
pub proof fn lemma_prefix_lengths(chunks: Seq<NewChunkView>, frames: Seq<Seq<u8>>, i: int)
    requires
        frames.len() == chunks.len(),
        forall|j: int|
            0 <= j < chunks.len() ==> (#[trigger] frames[j]).len() == chunks[j].plaintext.len()
                + 40,
        0 <= i <= chunks.len(),
    ensures
        joined(frames.take(i)).len() == frames_len(chunks.take(i)),
    decreases i,
{
    if i > 0 {
        lemma_prefix_lengths(chunks, frames, i - 1);
        assert(frames.take(i).drop_last() =~= frames.take(i - 1));
        assert(chunks.take(i).drop_last() =~= chunks.take(i - 1));
        assert(frames.take(i).last() == frames[i - 1]);
        assert(chunks.take(i).last() == chunks[i - 1]);
    }
}

/// Each piece stands behind those in front of it.
pub proof fn lemma_piece_of_joined(pieces: Seq<Seq<u8>>, i: int)
    requires
        0 <= i < pieces.len(),
    ensures
        joined(pieces.take(i)).len() + pieces[i].len() <= joined(pieces).len(),
        joined(pieces).subrange(
            joined(pieces.take(i)).len() as int,
            (joined(pieces.take(i)).len() + pieces[i].len()) as int,
        ) == pieces[i],
    decreases pieces.len(),
{
    let front = pieces.drop_last();
    if i == pieces.len() - 1 {
        assert(pieces.take(i) =~= front);
        assert(joined(pieces).subrange(
            joined(front).len() as int,
            (joined(front).len() + pieces[i].len()) as int,
        ) =~= pieces[i]);
    } else {
        lemma_piece_of_joined(front, i);
        assert(front.take(i) =~= pieces.take(i));
        assert(front[i] == pieces[i]);
        let start = joined(pieces.take(i)).len() as int;
        assert(joined(pieces).subrange(start, start + pieces[i].len()) =~= joined(front).subrange(
            start,
            start + pieces[i].len(),
        ));
    }
}

/// The image after everything but the volatile slot was written.
pub open spec fn body_image(
    image: Seq<u8>,
    place: Placement,
    tail: int,
    eof: int,
    sealed: Sealed,
) -> Seq<u8> {
    let entries_at = place.index_offset + sealed.ciphertext.len();
    if place.relocate {
        let filled = write_at(image, eof, joined(sealed.fill));
        let moved = write_at(filled, place.index_offset, sealed.ciphertext);
        let extended = write_at(moved, entries_at, sealed.entries);
        write_at(extended, tail, joined(sealed.frames))
    } else {
        write_at(write_at(image, tail, joined(sealed.frames)), entries_at, sealed.entries)
    }
}

proof fn lemma_after_one(image: Seq<u8>, request: RequestView)
    ensures
        after_all(image, seq![request]) == after(image, request),
{
    assert(seq![request].drop_last() =~= Seq::empty());
    assert(after_all(image, Seq::empty()) == image);
}

proof fn lemma_after_two(image: Seq<u8>, first: RequestView, second: RequestView)
    ensures
        after_all(image, seq![first, second]) == after(after(image, first), second),
{
    assert(seq![first, second].drop_last() =~= seq![first]);
    lemma_after_one(image, first);
}

proof fn lemma_body_image(
    image: Seq<u8>,
    place: Placement,
    tail: int,
    eof: int,
    sealed: Sealed,
)
    requires
        0 <= tail,
        0 <= eof,
        0 <= place.index_offset,
        tail + joined(sealed.frames).len() <= u64::MAX,
        eof + joined(sealed.fill).len() <= u64::MAX,
        place.index_offset + sealed.ciphertext.len() <= u64::MAX,
    ensures
        after_all(image, body_script(place, tail, eof, sealed)) == body_image(
            image,
            place,
            tail,
            eof,
            sealed,
        ),
{
    let write_entries = RequestView::Write {
        offset: (place.index_offset + sealed.ciphertext.len()) as u64,
        bytes: sealed.entries,
    };
    let entries = seq![write_entries, RequestView::Sync];
    let run = run_writes(tail, sealed.frames);
    let frames = run.push(RequestView::Sync);
    if place.relocate {
        let fill = run_writes(eof, sealed.fill);
        let write_index = RequestView::Write {
            offset: place.index_offset as u64,
            bytes: sealed.ciphertext,
        };
        let moving = seq![write_index, RequestView::Sync];
        lemma_run_writes(image, eof, sealed.fill);
        let i1 = after_all(image, fill);
        lemma_after_all_concat(image, fill, moving);
        lemma_after_two(i1, write_index, RequestView::Sync);
        let i2 = after_all(image, fill + moving);
        lemma_after_all_concat(image, fill + moving, entries);
        lemma_after_two(i2, write_entries, RequestView::Sync);
        let i3 = after_all(image, fill + moving + entries);
        lemma_after_all_concat(image, fill + moving + entries, frames);
        assert(frames.drop_last() =~= run);
        lemma_run_writes(i3, tail, sealed.frames);
    } else {
        assert(frames.drop_last() =~= run);
        lemma_run_writes(image, tail, sealed.frames);
        let i1 = after_all(image, frames);
        lemma_after_all_concat(image, frames, entries);
        lemma_after_two(i1, write_entries, RequestView::Sync);
    }
}

/// What the parts of a transaction measure, and where they come to stand.
proof fn lemma_geometry(
    b: BlobView,
    image: Seq<u8>,
    chunks: Seq<NewChunkView>,
    completes: Seq<CompleteView>,
    place: Placement,
    sealed: Sealed,
)
    requires
        b.indexed(image),
        b.transaction(image, chunks, completes, place, sealed),
    ensures
        ({
            let tail = data_tail_of(b.entries(image).chunks);
            let index_end = place.index_offset + sealed.ciphertext.len() + sealed.entries.len();
            &&& FRONT_MATTER_LEN <= tail
            &&& joined(sealed.frames).len() == frames_len(chunks)
            &&& chunks.len() == 0 ==> frames_len(chunks) == 0
            &&& chunks.len() > 0 ==> tail + frames_len(chunks) <= place.index_offset
            &&& tail + frames_len(chunks) <= u64::MAX
            &&& index_end <= place.filled_len <= u64::MAX
            &&& image.len() <= place.filled_len
            &&& image.len() + joined(sealed.fill).len() == place.filled_len
            &&& place.relocate ==> image.len() <= place.index_offset
            &&& !place.relocate ==> place.index_offset == b.active(image).index_offset
                && place.filled_len == image.len()
        }),
{
    let tail = data_tail_of(b.entries(image).chunks);
    let count = chunks.len() as int;
    lemma_data_tail_bounded(b.entries(image).chunks, u64::MAX as int);
    assert forall|j: int| 0 <= j < chunks.len() implies (#[trigger] sealed.frames[j]).len()
        == chunks[j].plaintext.len() + 40 by {
        assert(b.frame_holds(
            entries_at(chunks, tail)[j],
            chunks[j].plaintext,
            sealed.frames[j],
        ));
    }
    lemma_prefix_lengths(chunks, sealed.frames, count);
    assert(chunks.take(count) =~= chunks);
    assert(sealed.frames.take(count) =~= sealed.frames);
    if count > 0 {
        lemma_prefix_lengths(chunks, sealed.frames, count - 1);
        assert(chunks.take(count - 1) =~= chunks.drop_last());
        assert(frames_len(chunks) > 0);
    }
}

/// What stands where once everything but the volatile slot was written.
proof fn lemma_body_regions(
    b: BlobView,
    image: Seq<u8>,
    chunks: Seq<NewChunkView>,
    completes: Seq<CompleteView>,
    place: Placement,
    sealed: Sealed,
)
    requires
        b.indexed(image),
        b.transaction(image, chunks, completes, place, sealed),
    ensures
        ({
            let tail = data_tail_of(b.entries(image).chunks);
            let body = body_image(image, place, tail, image.len() as int, sealed);
            let index_end = place.index_offset + sealed.ciphertext.len() + sealed.entries.len();
            &&& body.len() == place.filled_len
            &&& body.subrange(0, 4096) == image.subrange(0, 4096)
            &&& tail <= b.active(image).index_offset ==> body.subrange(0, tail) == image.subrange(
                0,
                tail,
            )
            &&& chunks.len() > 0 ==> body.subrange(tail, tail + frames_len(chunks)) == joined(
                sealed.frames,
            )
            &&& body.subrange(place.index_offset, index_end) == sealed.ciphertext + sealed.entries
        }),
{
    let tail = data_tail_of(b.entries(image).chunks);
    let eof = image.len() as int;
    let body = body_image(image, place, tail, eof, sealed);
    let ct = sealed.ciphertext;
    let index_end = place.index_offset + ct.len() + sealed.entries.len();
    lemma_geometry(b, image, chunks, completes, place, sealed);
    assert(body.subrange(0, 4096) =~= image.subrange(0, 4096));
    if tail <= b.active(image).index_offset {
        assert(body.subrange(0, tail) =~= image.subrange(0, tail));
    }
    if chunks.len() > 0 {
        assert(body.subrange(tail, tail + frames_len(chunks)) =~= joined(sealed.frames));
    }
    if !place.relocate {
        assert forall|i: int| 0 <= i < ct.len() implies body[place.index_offset + i] == ct[i] by {
            assert(ct[i] == image[b.active(image).index_offset + i]);
        }
    }
    assert(body.subrange(place.index_offset, index_end) =~= ct + sealed.entries);
}

/// A transaction on a file whose index is authentic appends to the index, whether or not the chunks
/// that the index lists are there.
///
/// Afterwards the index is authentic and lists what it listed, then the new entries, and every new
/// chunk reads as what was written. The other volatile slot is in force, one generation on; the
/// stable slot, the slot that was in force and the index ciphertext that was there are unchanged,
/// wherever the index now stands.
pub proof fn law_transaction_appends(
    b: BlobView,
    image: Seq<u8>,
    chunks: Seq<NewChunkView>,
    completes: Seq<CompleteView>,
    place: Placement,
    sealed: Sealed,
)
    requires
        b.indexed(image),
        b.transaction(image, chunks, completes, place, sealed),
        entries_sized(
            added_entries(chunks, completes, data_tail_of(b.entries(image).chunks)),
        ),
    ensures
        ({
            let out = after_all(image, b.script(image, place, sealed));
            let tail = data_tail_of(b.entries(image).chunks);
            let old = b.active(image);
            let new = b.active(out);
            &&& b.indexed(out)
            &&& out.len() == place.filled_len
            &&& b.entries(out) == b.entries(image).concat(added_entries(chunks, completes, tail))
            &&& new.generation == old.generation + 1
            &&& new.slot_index == 1 - old.slot_index
            &&& new == b.next_locator(place, old, sealed.ciphertext + sealed.entries)
            &&& b.locators(slots_in(out))[1] == old
            &&& out.subrange(0, 2048) == image.subrange(0, 2048)
            &&& index_bytes(new, out).take(old.index_length as int) == index_bytes(old, image)
            &&& forall|i: int|
                0 <= i < chunks.len() ==> b.stored_chunk(entries_at(chunks, tail)[i], out) == Ok::<
                    Seq<u8>,
                    VaultError,
                >((#[trigger] chunks[i]).plaintext)
        }),
{
    let tail = data_tail_of(b.entries(image).chunks);
    let old = b.active(image);
    let body = body_image(image, place, tail, image.len() as int, sealed);
    let out = after_all(image, b.script(image, place, sealed));
    let slot_at = slot_offset((1 - old.slot_index) as u8);
    lemma_geometry(b, image, chunks, completes, place, sealed);
    lemma_body_regions(b, image, chunks, completes, place, sealed);
    lemma_slot_is_last(b, image, chunks, completes, place, sealed);
    lemma_new_slot_wins(b, image, body, place, sealed);
    let new = b.active(out);
    let ct = sealed.ciphertext + sealed.entries;
    lemma_index_extends(b, image, chunks, completes, place, sealed);
    assert(index_bytes(new, out) =~= ct) by {
        let region = body.subrange(place.index_offset, place.index_offset + ct.len());
        assert(region == ct);
        assert forall|i: int| 0 <= i < ct.len() implies out[place.index_offset + i] == ct[i] by {
            assert(region[i] == body[place.index_offset + i]);
        }
    }
    assert(index_bytes(new, out).take(old.index_length as int) =~= index_bytes(old, image));
    let added = added_entries(chunks, completes, tail);
    assert(b.entries(out) == b.entries(image).concat(added));
    assert(out.subrange(0, 2048) =~= image.subrange(0, 2048)) by {
        assert forall|i: int| 0 <= i < 2048 implies out[i] == image[i] by {
            assert(body.subrange(0, 4096)[i] == image.subrange(0, 4096)[i]);
        }
    }
    assert forall|i: int| 0 <= i < chunks.len() implies b.stored_chunk(
        entries_at(chunks, tail)[i],
        out,
    ) == Ok::<Seq<u8>, VaultError>((#[trigger] chunks[i]).plaintext) by {
        lemma_new_chunk_readable(b, image, chunks, completes, place, sealed, i);
    }
    let before = b.entries(image).chunks;
    let now = b.entries(out).chunks;
    assert forall|i: int| 0 <= i < now.len() implies chunk_end(#[trigger] now[i]) <= u64::MAX by {
        if i < before.len() {
            assert(now[i] == before[i]);
        } else {
            assert(now[i] == entries_at(chunks, tail)[i - before.len()]);
            lemma_new_chunk_readable(
                b,
                image,
                chunks,
                completes,
                place,
                sealed,
                i - before.len(),
            );
        }
    }
}

/// The slot is written over the front matter once everything else is there.
proof fn lemma_slot_is_last(
    b: BlobView,
    image: Seq<u8>,
    chunks: Seq<NewChunkView>,
    completes: Seq<CompleteView>,
    place: Placement,
    sealed: Sealed,
)
    requires
        b.indexed(image),
        b.transaction(image, chunks, completes, place, sealed),
    ensures
        ({
            let tail = data_tail_of(b.entries(image).chunks);
            let body = body_image(image, place, tail, image.len() as int, sealed);
            let slot_at = slot_offset((1 - b.active(image).slot_index) as u8);
            after_all(image, b.script(image, place, sealed)) == write_at(
                body,
                slot_at as int,
                sealed.slot,
            )
        }),
{
    let tail = data_tail_of(b.entries(image).chunks);
    let eof = image.len() as int;
    let body = body_image(image, place, tail, eof, sealed);
    let slot_at = slot_offset((1 - b.active(image).slot_index) as u8);
    let write_slot = RequestView::Write { offset: slot_at, bytes: sealed.slot };
    lemma_geometry(b, image, chunks, completes, place, sealed);
    lemma_body_image(image, place, tail, eof, sealed);
    lemma_after_all_concat(
        image,
        body_script(place, tail, eof, sealed),
        seq![write_slot, RequestView::Sync],
    );
    lemma_after_two(body, write_slot, RequestView::Sync);
}

/// A transaction leads from a consistent file to a consistent file.
///
/// It appends to the index as [`law_transaction_appends`] says, and every old chunk reads as it
/// did.
pub proof fn law_transaction_commits(
    b: BlobView,
    image: Seq<u8>,
    chunks: Seq<NewChunkView>,
    completes: Seq<CompleteView>,
    place: Placement,
    sealed: Sealed,
)
    requires
        b.consistent(image),
        b.transaction(image, chunks, completes, place, sealed),
        entries_sized(
            added_entries(chunks, completes, data_tail_of(b.entries(image).chunks)),
        ),
    ensures
        ({
            let out = after_all(image, b.script(image, place, sealed));
            let tail = data_tail_of(b.entries(image).chunks);
            let old = b.active(image);
            let new = b.active(out);
            &&& b.consistent(out)
            &&& b.entries(out) == b.entries(image).concat(added_entries(chunks, completes, tail))
            &&& new.generation == old.generation + 1
            &&& new.slot_index == 1 - old.slot_index
            &&& new == b.next_locator(place, old, sealed.ciphertext + sealed.entries)
            &&& b.locators(slots_in(out))[1] == old
            &&& out.subrange(0, 2048) == image.subrange(0, 2048)
            &&& index_bytes(new, out).take(old.index_length as int) == index_bytes(old, image)
            &&& forall|i: int|
                0 <= i < b.entries(image).chunks.len() ==> b.stored_chunk(
                    #[trigger] b.entries(image).chunks[i],
                    out,
                ) == b.stored_chunk(b.entries(image).chunks[i], image)
            &&& forall|i: int|
                0 <= i < chunks.len() ==> b.stored_chunk(entries_at(chunks, tail)[i], out) == Ok::<
                    Seq<u8>,
                    VaultError,
                >((#[trigger] chunks[i]).plaintext)
        }),
{
    let tail = data_tail_of(b.entries(image).chunks);
    let body = body_image(image, place, tail, image.len() as int, sealed);
    let out = after_all(image, b.script(image, place, sealed));
    let slot_at = slot_offset((1 - b.active(image).slot_index) as u8);
    law_transaction_appends(b, image, chunks, completes, place, sealed);
    lemma_geometry(b, image, chunks, completes, place, sealed);
    lemma_tail_in_front_of_index(b, image);
    lemma_body_regions(b, image, chunks, completes, place, sealed);
    lemma_slot_is_last(b, image, chunks, completes, place, sealed);
    let before = b.entries(image).chunks;
    assert forall|i: int| 0 <= i < before.len() implies b.stored_chunk(#[trigger] before[i], out)
        == b.stored_chunk(before[i], image) by {
        lemma_old_chunk_kept(b, image, body, out, slot_at as int, sealed.slot, i);
    }
    assert forall|i: int| 0 <= i < b.entries(out).chunks.len() implies b.on_disk(
        #[trigger] b.entries(out).chunks[i],
        out,
    ) by {
        if i < before.len() {
            assert(b.on_disk(before[i], image));
            lemma_data_tail_covers(before, i);
            assert(b.entries(out).chunks[i] == before[i]);
        } else {
            let k = i - before.len();
            assert(b.entries(out).chunks[i] == entries_at(chunks, tail)[k]);
            lemma_new_chunk_readable(b, image, chunks, completes, place, sealed, k);
        }
    }
}

proof fn lemma_new_slot_wins(
    b: BlobView,
    image: Seq<u8>,
    body: Seq<u8>,
    place: Placement,
    sealed: Sealed,
)
    requires
        image.len() >= FRONT_MATTER_LEN,
        body.len() >= FRONT_MATTER_LEN,
        b.locators(slots_in(image)).len() > 0,
        b.active(image).generation < u64::MAX,
        body.subrange(0, 4096) == image.subrange(0, 4096),
        sealed.slot.len() == VOLATILE_SLOT_LEN,
        b.slot_locator((1 - b.active(image).slot_index) as u8, sealed.slot) == Some(
            b.next_locator(place, b.active(image), sealed.ciphertext + sealed.entries),
        ),
    ensures
        ({
            let old = b.active(image);
            let slot_at = slot_offset((1 - old.slot_index) as u8);
            let out = write_at(body, slot_at as int, sealed.slot);
            &&& b.locators(slots_in(out)) == seq![
                b.next_locator(place, old, sealed.ciphertext + sealed.entries),
                old,
            ]
            &&& old.slot_index <= 1
        }),
{
    let old = b.active(image);
    let slot_at = slot_offset((1 - old.slot_index) as u8);
    let out = write_at(body, slot_at as int, sealed.slot);
    let before = slots_in(image);
    let now = slots_in(out);
    assert forall|i: int| 0 <= i < 4096 implies #[trigger] body[i] == image[i] by {
        assert(body.subrange(0, 4096)[i] == body[i]);
        assert(image.subrange(0, 4096)[i] == image[i]);
    }
    if old.slot_index == 0 {
        assert(now.take(1024) =~= before.take(1024));
        assert(now.skip(1024) =~= sealed.slot);
    } else {
        assert(now.take(1024) =~= sealed.slot);
        assert(now.skip(1024) =~= before.skip(1024));
    }
}

proof fn lemma_index_extends(
    b: BlobView,
    image: Seq<u8>,
    chunks: Seq<NewChunkView>,
    completes: Seq<CompleteView>,
    place: Placement,
    sealed: Sealed,
)
    requires
        b.indexed(image),
        b.transaction(image, chunks, completes, place, sealed),
        entries_sized(
            added_entries(chunks, completes, data_tail_of(b.entries(image).chunks)),
        ),
    ensures
        ({
            let old = b.active(image);
            let ct = sealed.ciphertext + sealed.entries;
            let tail = data_tail_of(b.entries(image).chunks);
            let added = added_entries(chunks, completes, tail);
            let bytes = transaction_bytes(added);
            b.index_of(b.next_locator(place, old, ct), ct) == Ok::<
                (IndexView, Seq<u8>),
                VaultError,
            >((b.entries(image).concat(added), b.stored(image)->Ok_0.1 + bytes))
        }),
{
    let old = b.active(image);
    let tail = data_tail_of(b.entries(image).chunks);
    let added = added_entries(chunks, completes, tail);
    let bytes = transaction_bytes(added);
    let key = b.keys.k_index;
    let nonce = b.keys.index_nonce;
    let front = sealed.ciphertext;
    law_transaction_decodes(added);
    law_stream_extends(key, nonce, 0, front, sealed.entries);
    law_stream_is_its_own_inverse(key, nonce, front.len() as int, bytes);
    assert(0 + front.len() == front.len());
    law_decoding_appends(stream_xor(key, nonce, 0, front), bytes);
}

proof fn lemma_old_chunk_kept(
    b: BlobView,
    image: Seq<u8>,
    body: Seq<u8>,
    out: Seq<u8>,
    slot_at: int,
    slot: Seq<u8>,
    i: int,
)
    requires
        b.consistent(image),
        0 <= i < b.entries(image).chunks.len(),
        body.len() >= image.len(),
        ({
            let tail = data_tail_of(b.entries(image).chunks);
            body.subrange(0, tail) == image.subrange(0, tail)
        }),
        0 <= slot_at,
        slot_at + slot.len() <= FRONT_MATTER_LEN,
        out == write_at(body, slot_at, slot),
    ensures
        frame_in(b.entries(image).chunks[i], out) == frame_in(b.entries(image).chunks[i], image),
{
    let tail = data_tail_of(b.entries(image).chunks);
    let entry = b.entries(image).chunks[i];
    lemma_tail_in_front_of_index(b, image);
    lemma_data_tail_covers(b.entries(image).chunks, i);
    assert(b.on_disk(entry, image));
    assert forall|k: int| entry.offset_in_blob <= k < chunk_end(entry) implies out[k]
        == image[k] by {
        assert(body.subrange(0, tail)[k] == image.subrange(0, tail)[k]);
    }
    assert(frame_in(entry, out) =~= frame_in(entry, image));
}

proof fn lemma_new_chunk_readable(
    b: BlobView,
    image: Seq<u8>,
    chunks: Seq<NewChunkView>,
    completes: Seq<CompleteView>,
    place: Placement,
    sealed: Sealed,
    i: int,
)
    requires
        b.indexed(image),
        b.transaction(image, chunks, completes, place, sealed),
        0 <= i < chunks.len(),
    ensures
        ({
            let tail = data_tail_of(b.entries(image).chunks);
            let entry = entries_at(chunks, tail)[i];
            let body = body_image(image, place, tail, image.len() as int, sealed);
            let slot_at = slot_offset((1 - b.active(image).slot_index) as u8);
            let out = write_at(body, slot_at as int, sealed.slot);
            &&& FRONT_MATTER_LEN <= entry.offset_in_blob
            &&& chunk_end(entry) <= place.index_offset
            &&& b.stored_chunk(entry, out) == Ok::<Seq<u8>, VaultError>(chunks[i].plaintext)
        }),
{
    let tail = data_tail_of(b.entries(image).chunks);
    let entry = entries_at(chunks, tail)[i];
    let body = body_image(image, place, tail, image.len() as int, sealed);
    let slot_at = slot_offset((1 - b.active(image).slot_index) as u8);
    let out = write_at(body, slot_at as int, sealed.slot);
    lemma_geometry(b, image, chunks, completes, place, sealed);
    lemma_body_regions(b, image, chunks, completes, place, sealed);
    assert(b.frame_holds(entry, chunks[i].plaintext, sealed.frames[i]));
    assert forall|j: int| 0 <= j < chunks.len() implies (#[trigger] sealed.frames[j]).len()
        == chunks[j].plaintext.len() + 40 by {
        assert(b.frame_holds(
            entries_at(chunks, tail)[j],
            chunks[j].plaintext,
            sealed.frames[j],
        ));
    }
    lemma_prefix_lengths(chunks, sealed.frames, i);
    lemma_piece_of_joined(sealed.frames, i);
    lemma_fitting_chunk(chunks, tail, i);
    let start = frames_len(chunks.take(i));
    let region = body.subrange(tail, tail + frames_len(chunks));
    let frame = sealed.frames[i];
    assert(start + frame.len() <= frames_len(chunks));
    assert(frame_in(entry, out) =~= frame) by {
        assert forall|k: int| 0 <= k < frame.len() implies out[entry.offset_in_blob + k]
            == frame[k] by {
            assert(region[start + k] == body[tail + start + k]);
            assert(joined(sealed.frames).subrange(start, start + frame.len())[k] == joined(
                sealed.frames,
            )[start + k]);
        }
    }
}

/// A chunk that is not refused is not too long.
pub proof fn lemma_fitting_chunk(chunks: Seq<NewChunkView>, tail: int, i: int)
    requires
        prepare_refusal(chunks, tail) is None,
        0 <= i < chunks.len(),
    ensures
        chunks[i].plaintext.len() <= u64::MAX,
    decreases chunks.len(),
{
    if i < chunks.len() - 1 {
        lemma_fitting_chunk(chunks.drop_last(), tail, i);
        assert(chunks.drop_last()[i] == chunks[i]);
    }
}

/// Every write ends within `limit`, and the file is never cut.
spec fn all_within(requests: Seq<RequestView>, limit: int) -> bool {
    forall|i: int|
        0 <= i < requests.len() ==> match #[trigger] requests[i] {
            RequestView::Truncate => false,
            RequestView::Write { offset, bytes } => offset + bytes.len() <= limit,
            _ => true,
        }
}

proof fn lemma_length_within(image: Seq<u8>, requests: Seq<RequestView>, limit: int)
    requires
        image.len() <= limit,
        all_within(requests, limit),
    ensures
        after_all(image, requests).len() <= limit,
    decreases requests.len(),
{
    if requests.len() > 0 {
        let front = requests.drop_last();
        assert forall|i: int| 0 <= i < front.len() implies match #[trigger] front[i] {
            RequestView::Truncate => false,
            RequestView::Write { offset, bytes } => offset + bytes.len() <= limit,
            _ => true,
        } by {
            assert(front[i] == requests[i]);
        }
        lemma_length_within(image, front, limit);
        let last = requests[requests.len() - 1];
        assert(last == requests.last());
    }
}

proof fn lemma_run_within(offset: int, pieces: Seq<Seq<u8>>, limit: int)
    requires
        0 <= offset,
        offset + joined(pieces).len() <= limit <= u64::MAX,
    ensures
        all_within(run_writes(offset, pieces), limit),
    decreases pieces.len(),
{
    if pieces.len() > 0 {
        lemma_run_within(offset, pieces.drop_last(), limit);
        let front = run_writes(offset, pieces.drop_last());
        let all = run_writes(offset, pieces);
        assert forall|i: int| 0 <= i < all.len() implies match #[trigger] all[i] {
            RequestView::Truncate => false,
            RequestView::Write { offset, bytes } => offset + bytes.len() <= limit,
            _ => true,
        } by {
            if i < front.len() {
                assert(all[i] == front[i]);
            }
        }
    }
}

/// The body of a transaction writes nothing in front of the data tail, and nothing into the index
/// as it stands where the new frames fit in front of it.
proof fn lemma_body_spares(
    b: BlobView,
    image: Seq<u8>,
    chunks: Seq<NewChunkView>,
    completes: Seq<CompleteView>,
    place: Placement,
    sealed: Sealed,
    start: int,
    end: int,
)
    requires
        b.consistent(image),
        b.transaction(image, chunks, completes, place, sealed),
        ({
            let tail = data_tail_of(b.entries(image).chunks);
            let old = b.active(image);
            ||| end <= tail
            ||| {
                &&& tail + frames_len(chunks) <= old.index_offset
                &&& start == old.index_offset
                &&& end == old.index_offset + old.index_length
            }
        }),
    ensures
        ({
            let tail = data_tail_of(b.entries(image).chunks);
            let body = body_script(place, tail, image.len() as int, sealed);
            all_spare(body, start, end) && all_within(body, place.filled_len)
        }),
{
    let tail = data_tail_of(b.entries(image).chunks);
    let eof = image.len() as int;
    let body = body_script(place, tail, eof, sealed);
    lemma_geometry(b, image, chunks, completes, place, sealed);
    lemma_tail_in_front_of_index(b, image);
    lemma_run_spares(tail, sealed.frames, start, end);
    lemma_run_within(tail, sealed.frames, place.filled_len);
    let run = run_writes(tail, sealed.frames);
    let fill = run_writes(eof, sealed.fill);
    if place.relocate {
        lemma_run_spares(eof, sealed.fill, start, end);
        lemma_run_within(eof, sealed.fill, place.filled_len);
        assert forall|i: int| 0 <= i < body.len() implies spares(#[trigger] body[i], start, end)
            && match body[i] {
            RequestView::Truncate => false,
            RequestView::Write { offset, bytes } => offset + bytes.len() <= place.filled_len,
            _ => true,
        } by {
            if i < fill.len() {
                assert(body[i] == fill[i]);
            } else if i >= fill.len() + 4 && i < fill.len() + 4 + run.len() {
                assert(body[i] == run[i - fill.len() - 4]);
            }
        }
    } else {
        assert forall|i: int| 0 <= i < body.len() implies spares(#[trigger] body[i], start, end)
            && match body[i] {
            RequestView::Truncate => false,
            RequestView::Write { offset, bytes } => offset + bytes.len() <= place.filled_len,
            _ => true,
        } by {
            if i < run.len() {
                assert(body[i] == run[i]);
            }
        }
    }
}

/// Wherever a transaction is interrupted before its slot is written, the locator in force is the
/// one that was, and every committed chunk reads as it did.
pub proof fn law_interruption_keeps_chunks(
    b: BlobView,
    image: Seq<u8>,
    chunks: Seq<NewChunkView>,
    completes: Seq<CompleteView>,
    place: Placement,
    sealed: Sealed,
    carried_out: int,
)
    requires
        b.consistent(image),
        b.transaction(image, chunks, completes, place, sealed),
        0 <= carried_out <= b.script(image, place, sealed).len() - 2,
    ensures
        ({
            let out = after_all(image, b.script(image, place, sealed).take(carried_out));
            &&& image.len() <= out.len() <= u64::MAX
            &&& out.subrange(0, 4096) == image.subrange(0, 4096)
            &&& b.active(out) == b.active(image)
            &&& forall|i: int|
                0 <= i < b.entries(image).chunks.len() ==> b.stored_chunk(
                    #[trigger] b.entries(image).chunks[i],
                    out,
                ) == b.stored_chunk(b.entries(image).chunks[i], image)
        }),
{
    let tail = data_tail_of(b.entries(image).chunks);
    let body = body_script(place, tail, image.len() as int, sealed);
    let done = b.script(image, place, sealed).take(carried_out);
    let out = after_all(image, done);
    lemma_geometry(b, image, chunks, completes, place, sealed);
    lemma_tail_in_front_of_index(b, image);
    assert(done =~= body.take(carried_out));
    lemma_body_spares(b, image, chunks, completes, place, sealed, 0, 4096);
    lemma_prefix_spares(body, carried_out, 0, 4096, place.filled_len);
    lemma_spared_is_kept(image, done, 0, 4096);
    lemma_length_within(image, done, place.filled_len);
    assert(slots_in(out) =~= slots_in(image)) by {
        assert(out.subrange(0, 4096).subrange(2048, 4096) =~= slots_in(out));
        assert(image.subrange(0, 4096).subrange(2048, 4096) =~= slots_in(image));
    }
    let before = b.entries(image).chunks;
    assert forall|i: int| 0 <= i < before.len() implies b.stored_chunk(#[trigger] before[i], out)
        == b.stored_chunk(before[i], image) by {
        let entry = before[i];
        assert(b.on_disk(entry, image));
        lemma_data_tail_covers(before, i);
        let start = entry.offset_in_blob as int;
        let end = chunk_end(entry);
        lemma_body_spares(b, image, chunks, completes, place, sealed, start, end);
        lemma_prefix_spares(body, carried_out, start, end, place.filled_len);
        lemma_spared_is_kept(image, done, start, end);
    }
}

proof fn lemma_prefix_spares(
    requests: Seq<RequestView>,
    k: int,
    start: int,
    end: int,
    limit: int,
)
    requires
        0 <= k <= requests.len(),
        all_spare(requests, start, end),
        all_within(requests, limit),
    ensures
        all_spare(requests.take(k), start, end),
        all_within(requests.take(k), limit),
{
    assert forall|i: int| 0 <= i < k implies spares(#[trigger] requests.take(k)[i], start, end)
        && match requests.take(k)[i] {
        RequestView::Truncate => false,
        RequestView::Write { offset, bytes } => offset + bytes.len() <= limit,
        _ => true,
    } by {
        assert(requests.take(k)[i] == requests[i]);
    }
}

/// A transaction whose frames fit in front of the index, or that finds the index empty, is all or
/// nothing: wherever it is interrupted the file is consistent, and lists either what it listed or
/// the new entries too.
///
/// Frames that do not fit are written over the old index before the new slot is, so for them this
/// does not hold where there is something to write over.
pub proof fn law_fitting_transaction_is_atomic(
    b: BlobView,
    image: Seq<u8>,
    chunks: Seq<NewChunkView>,
    completes: Seq<CompleteView>,
    place: Placement,
    sealed: Sealed,
    carried_out: int,
)
    requires
        b.consistent(image),
        b.transaction(image, chunks, completes, place, sealed),
        entries_sized(
            added_entries(chunks, completes, data_tail_of(b.entries(image).chunks)),
        ),
        b.spares_index(image, chunks),
        0 <= carried_out <= b.script(image, place, sealed).len(),
    ensures
        ({
            let script = b.script(image, place, sealed);
            let out = after_all(image, script.take(carried_out));
            let tail = data_tail_of(b.entries(image).chunks);
            &&& b.consistent(out)
            &&& b.entries(out) == if carried_out <= script.len() - 2 {
                b.entries(image)
            } else {
                b.entries(image).concat(added_entries(chunks, completes, tail))
            }
        }),
{
    let script = b.script(image, place, sealed);
    let done = script.take(carried_out);
    let out = after_all(image, done);
    if carried_out <= script.len() - 2 {
        let tail = data_tail_of(b.entries(image).chunks);
        let old = b.active(image);
        let body = body_script(place, tail, image.len() as int, sealed);
        let start = old.index_offset as int;
        let end = old.index_offset + old.index_length;
        law_interruption_keeps_chunks(
            b,
            image,
            chunks,
            completes,
            place,
            sealed,
            carried_out,
        );
        lemma_tail_in_front_of_index(b, image);
        if old.index_length == 0 {
            assert(index_bytes(old, out) =~= index_bytes(old, image));
        } else {
            lemma_body_spares(b, image, chunks, completes, place, sealed, start, end);
            assert(done =~= body.take(carried_out));
            lemma_prefix_spares(body, carried_out, start, end, place.filled_len);
            lemma_spared_is_kept(image, done, start, end);
        }
        assert(index_bytes(old, out) == index_bytes(old, image));
        assert(slots_in(out) =~= slots_in(image)) by {
            assert(out.subrange(0, 4096).subrange(2048, 4096) =~= slots_in(out));
            assert(image.subrange(0, 4096).subrange(2048, 4096) =~= slots_in(image));
        }
        let before = b.entries(image).chunks;
        assert forall|i: int| 0 <= i < b.entries(out).chunks.len() implies b.on_disk(
            #[trigger] b.entries(out).chunks[i],
            out,
        ) by {
            assert(b.on_disk(before[i], image));
            assert(b.stored_chunk(before[i], out) == b.stored_chunk(before[i], image));
        }
    } else {
        law_transaction_commits(b, image, chunks, completes, place, sealed);
        assert(script.take(script.len() as int) =~= script);
        assert(script.drop_last() =~= script.take(script.len() - 1));
    }
}

/// What a file may hold once the requests were carried out in part, in any order and torn: every
/// byte that none of them writes is as it was.
pub open spec fn torn(image: Seq<u8>, requests: Seq<RequestView>, out: Seq<u8>) -> bool {
    &&& image.len() <= out.len() <= u64::MAX
    &&& forall|p: int|
        0 <= p < image.len() && all_spare(requests, p, p + 1) ==> #[trigger] out[p] == image[p]
}

proof fn lemma_torn_spares(
    image: Seq<u8>,
    requests: Seq<RequestView>,
    out: Seq<u8>,
    start: int,
    end: int,
)
    requires
        torn(image, requests, out),
        0 <= start <= end <= image.len(),
        all_spare(requests, start, end),
    ensures
        out.subrange(start, end) == image.subrange(start, end),
{
    assert forall|i: int| 0 <= i < end - start implies out.subrange(start, end)[i]
        == image.subrange(start, end)[i] by {
        let p = start + i;
        assert(all_spare(requests, p, p + 1)) by {
            assert forall|k: int| 0 <= k < requests.len() implies spares(
                #[trigger] requests[k],
                p,
                p + 1,
            ) by {
                assert(spares(requests[k], start, end));
            }
        }
        assert(out[p] == image[p]);
    }
    assert(out.subrange(start, end) =~= image.subrange(start, end));
}

/// Until the slot of a transaction is written, it does not matter which of its writes reached the
/// file, in what order, and whether they did so whole: the front matter is as it was, every
/// committed chunk reads as it did, and where the frames fit in front of the index or the index is
/// empty the file is consistent and lists what it listed.
pub proof fn law_torn_transaction_is_harmless(
    b: BlobView,
    image: Seq<u8>,
    chunks: Seq<NewChunkView>,
    completes: Seq<CompleteView>,
    place: Placement,
    sealed: Sealed,
    out: Seq<u8>,
)
    requires
        b.consistent(image),
        b.transaction(image, chunks, completes, place, sealed),
        torn(
            image,
            body_script(
                place,
                data_tail_of(b.entries(image).chunks),
                image.len() as int,
                sealed,
            ),
            out,
        ),
    ensures
        out.subrange(0, 4096) == image.subrange(0, 4096),
        b.active(out) == b.active(image),
        forall|i: int|
            0 <= i < b.entries(image).chunks.len() ==> b.stored_chunk(
                #[trigger] b.entries(image).chunks[i],
                out,
            ) == b.stored_chunk(b.entries(image).chunks[i], image),
        b.spares_index(image, chunks) ==> b.consistent(out) && b.entries(out) == b.entries(image),
{
    let tail = data_tail_of(b.entries(image).chunks);
    let old = b.active(image);
    let body = body_script(place, tail, image.len() as int, sealed);
    lemma_tail_in_front_of_index(b, image);
    lemma_body_spares(b, image, chunks, completes, place, sealed, 0, 4096);
    lemma_torn_spares(image, body, out, 0, 4096);
    assert(slots_in(out) =~= slots_in(image)) by {
        assert(out.subrange(0, 4096).subrange(2048, 4096) =~= slots_in(out));
        assert(image.subrange(0, 4096).subrange(2048, 4096) =~= slots_in(image));
    }
    let before = b.entries(image).chunks;
    assert forall|i: int| 0 <= i < before.len() implies b.stored_chunk(#[trigger] before[i], out)
        == b.stored_chunk(before[i], image) by {
        let entry = before[i];
        assert(b.on_disk(entry, image));
        lemma_data_tail_covers(before, i);
        let start = entry.offset_in_blob as int;
        let end = chunk_end(entry);
        lemma_body_spares(b, image, chunks, completes, place, sealed, start, end);
        lemma_torn_spares(image, body, out, start, end);
    }
    if b.spares_index(image, chunks) {
        let start = old.index_offset as int;
        let end = old.index_offset + old.index_length;
        if old.index_length == 0 {
            assert(index_bytes(old, out) =~= index_bytes(old, image));
        } else {
            lemma_body_spares(b, image, chunks, completes, place, sealed, start, end);
            lemma_torn_spares(image, body, out, start, end);
        }
        assert(index_bytes(old, out) == index_bytes(old, image));
        assert forall|i: int| 0 <= i < b.entries(out).chunks.len() implies b.on_disk(
            #[trigger] b.entries(out).chunks[i],
            out,
        ) by {
            assert(b.on_disk(before[i], image));
            assert(b.stored_chunk(before[i], out) == b.stored_chunk(before[i], image));
        }
    }
}

} // verus!
