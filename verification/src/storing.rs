//! Storing a file from beginning to end: what was put in is what comes out.

use vstd::prelude::*;

use crate::blob::{data_tail_of, AEAD_FRAME_OVERHEAD};
use crate::commit::{added_entries, entries_at, joined};
use crate::consistency::lemma_piece_of_joined;
use crate::contents::{
    counting, delivered, law_delivery_keeps_chunks, law_delivery_keeps_consistency,
    law_delivery_keeps_currency, law_delivery_keeps_soundness, law_known_chunks_are_readable,
    law_range_is_what_the_file_holds, law_range_read_starts, lemma_contains_concat,
    lemma_contents_len, lemma_counting_all, lemma_delivery_listing, lemma_filter_all,
    lemma_filter_members, lemma_filter_none, lemma_marked_from, lemma_marked_latest,
    lemma_own_position, marked, of_file,
};
use crate::error::VaultError;
use crate::files::{
    by_number, has_number, lemma_by_number, lemma_covering_is_numbered, lemma_numbered_place,
    lemma_total_len_grows, same_members, total_len,
};
use crate::index::{IndexView, NewChunkView};
use crate::plan::{chunks_for, chunks_of, lemma_piece_lengths, pieces_of, FilePlan};
use crate::read::frame_fits;
use crate::storage::{after, honest, Reply, Step, StepView};
use crate::transfer::{marker_of, parcels_from, ParcelView, PutFile, ReadFileView};
use crate::types::{chunk_views, CompleteView};
use crate::vault::{locate_chunks, locate_completes, LocatedChunk, LocatedComplete, VaultView};
use crate::write::{law_write_is_what_it_reports, WriteChunks, WriteChunksResult};

verus! {

impl PutFile {
    /// What the operation holds is true of the files: they were `base` when the transaction
    /// started, and are `images` now.
    pub open spec fn tracks(
        self,
        v: VaultView,
        base: Seq<Seq<u8>>,
        images: Seq<Seq<u8>>,
    ) -> bool {
        let at = self.at as int;
        &&& v.sound(base)
        &&& images == base.update(at, images[at])
        &&& self.operation.tracks(v.blobs[at], base[at], images[at])
    }
}

/// Storing a file, on files that answer as they should, goes from one delivery to the next, whether
/// or not the vault knows what the files hold.
///
/// A step leads on within a transaction, or refuses and leaves the files as they were at the start
/// of the transaction, or ends the transaction: then a parcel was delivered, the vault knows of it,
/// and the next one is on its way. A vault that knew what its files held knows it then.
pub proof fn law_storing_delivers(
    put: PutFile,
    v: VaultView,
    base: Seq<Seq<u8>>,
    images: Seq<Seq<u8>>,
    reply: Reply,
    r: Step<PutFile, ()>,
    now: VaultView,
)
    requires
        put.valid(v),
        put.tracks(v, base, images),
        honest(images[put.at as int], put.operation.asks(), reply),
        put.on_reply(v, reply, r, now),
    ensures
        ({
            let at = put.at as int;
            let now_images = images.update(at, after(images[at], put.operation.asks()));
            let chunks = put.operation.new_chunks();
            let completes = put.operation.new_completes();
            ||| {
                &&& now == v
                &&& r matches Step::Ask(next)
                &&& next.tracks(v, base, now_images)
                &&& next.at == put.at
                &&& next.queue() == put.queue()
                &&& next.operation.new_chunks() == chunks
                &&& next.operation.new_completes() == completes
            }
            ||| {
                &&& now == v
                &&& r matches Step::Done(Err(_))
                &&& now_images == base
            }
            ||| {
                &&& delivered(v, base, at, chunks, completes, now, now_images)
                &&& now.sound(now_images)
                &&& v.consistent(base) ==> now.consistent(now_images)
                &&& if put.queue().len() == 0 {
                    r == Step::<PutFile, ()>::Done(Ok(()))
                } else {
                    &&& r matches Step::Ask(next)
                    &&& next.tracks(now, now_images, now_images)
                    &&& next.sends(put.queue()[0])
                    &&& next.queue() == put.queue().skip(1)
                }
            }
        }),
{
    let at = put.at as int;
    let b = v.blobs[at];
    let step = choose|step: Step<WriteChunks, WriteChunksResult>|
        #[trigger] put.operation.on_reply(b, reply, step) && put.comes_of(v, step, r, now);
    assert(v.blobs[at].consistent(base[at]));
    law_write_is_what_it_reports(b, base[at], images[at], put.operation, reply, step);
    let image = after(images[at], put.operation.asks());
    let now_images = images.update(at, image);
    assert(now_images =~= base.update(at, image));
    match step {
        Step::Ask(operation) => {
            assert(now_images =~= base.update(at, now_images[at]));
        },
        Step::Done(Err(_)) => {
            assert(now_images =~= base);
        },
        Step::Done(Ok(result)) => {
            lemma_result_is_delivered(put, v, base, now_images, result, now);
            if put.queue().len() > 0 {
                let next = r->Ask_0;
                assert(now_images =~= now_images.update(next.at as int, now_images[next.at as int]));
            }
        },
    }
}

proof fn lemma_result_is_delivered(
    put: PutFile,
    v: VaultView,
    base: Seq<Seq<u8>>,
    now_images: Seq<Seq<u8>>,
    result: WriteChunksResult,
    now: VaultView,
)
    requires
        v.sound(base),
        put.at < v.blobs.len(),
        ({
            let at = put.at as int;
            let b = v.blobs[at];
            let image = now_images[at];
            let chunks = put.operation.new_chunks();
            let old = b.entries(base[at]);
            let tail = data_tail_of(old.chunks);
            &&& now_images == base.update(at, image)
            &&& b.consistent(image)
            &&& result.index@ == b.entries(image)
            &&& b.entries(image) == old.concat(
                added_entries(chunks, put.operation.new_completes(), tail),
            )
            &&& chunk_views(result.entries@) == entries_at(chunks, tail)
            &&& forall|i: int|
                0 <= i < chunks.len() ==> b.stored_chunk((#[trigger] result.entries@[i])@, image)
                    == Ok::<Seq<u8>, VaultError>(chunks[i].plaintext)
            &&& forall|i: int|
                0 <= i < old.chunks.len() ==> b.stored_chunk(#[trigger] old.chunks[i], image)
                    == b.stored_chunk(old.chunks[i], base[at])
            &&& now == v.with_blob_index(at, result.index@)
        }),
    ensures
        delivered(
            v,
            base,
            put.at as int,
            put.operation.new_chunks(),
            put.operation.new_completes(),
            now,
            now_images,
        ),
        now.sound(now_images),
        v.consistent(base) ==> now.consistent(now_images),
{
    let at = put.at as int;
    let b = v.blobs[at];
    let image = now_images[at];
    let chunks = put.operation.new_chunks();
    let completes = put.operation.new_completes();
    let tail = data_tail_of(b.entries(base[at]).chunks);
    assert forall|i: int| 0 <= i < chunks.len() implies b.stored_chunk(
        entries_at(chunks, tail)[i],
        image,
    ) == Ok::<Seq<u8>, VaultError>((#[trigger] chunks[i]).plaintext) by {
        assert(chunk_views(result.entries@)[i] == result.entries@[i]@);
    }
    law_delivery_keeps_soundness(v, base, at, chunks, completes, now, now_images);
    if v.consistent(base) {
        law_delivery_keeps_consistency(v, base, at, chunks, completes, now, now_images);
    }
}

/// Chunks in all of the parcels.
pub open spec fn chunk_count(parcels: Seq<ParcelView>) -> int
    decreases parcels.len(),
{
    if parcels.len() == 0 {
        0
    } else {
        chunk_count(parcels.drop_last()) + parcels.last().chunks.len()
    }
}

proof fn lemma_chunk_count_front(first: ParcelView, rest: Seq<ParcelView>)
    ensures
        chunk_count(seq![first] + rest) == first.chunks.len() + chunk_count(rest),
    decreases rest.len(),
{
    let all = seq![first] + rest;
    if rest.len() == 0 {
        assert(all.drop_last() =~= rest);
        assert(chunk_count(rest) == 0);
    } else {
        lemma_chunk_count_front(first, rest.drop_last());
        assert(all.drop_last() =~= seq![first] + rest.drop_last());
        assert(all.last() == rest.last());
    }
}

/// Of the first `n` chunks, how many go to a blob from `from` on.
pub open spec fn going_from(blobs: Seq<int>, from: int, n: int) -> int
    decreases n,
{
    if n <= 0 {
        0
    } else {
        going_from(blobs, from, n - 1) + if blobs[n - 1] >= from {
            1int
        } else {
            0int
        }
    }
}

proof fn lemma_going_split(chunks: Seq<NewChunkView>, blobs: Seq<int>, from: int, n: int)
    requires
        0 <= n <= blobs.len(),
    ensures
        going_from(blobs, from, n) == chunks_for(chunks, blobs, from, n).len() + going_from(
            blobs,
            from + 1,
            n,
        ),
    decreases n,
{
    if n > 0 {
        lemma_going_split(chunks, blobs, from, n - 1);
    }
}

proof fn lemma_going_bounds(blobs: Seq<int>, from: int, n: int, count: int)
    requires
        0 <= n <= blobs.len(),
        forall|j: int| 0 <= j < blobs.len() ==> 0 <= #[trigger] blobs[j] < count,
    ensures
        from <= 0 ==> going_from(blobs, from, n) == n,
        from >= count ==> going_from(blobs, from, n) == 0,
    decreases n,
{
    if n > 0 {
        lemma_going_bounds(blobs, from, n - 1, count);
        assert(0 <= blobs[n - 1] < count);
    }
}

/// The parcels hold exactly the chunks that go to the blobs from `from` on, in all.
proof fn lemma_parcels_count(
    chunks: Seq<NewChunkView>,
    blobs: Seq<int>,
    marker: CompleteView,
    from: int,
    count: int,
)
    requires
        0 <= from <= count,
        forall|j: int| 0 <= j < blobs.len() ==> 0 <= #[trigger] blobs[j] < count,
    ensures
        chunk_count(parcels_from(chunks, blobs, marker, from, count)) == going_from(
            blobs,
            from,
            blobs.len() as int,
        ),
    decreases count - from,
{
    let n = blobs.len() as int;
    if from >= count {
        lemma_going_bounds(blobs, from, n, count);
    } else {
        lemma_parcels_count(chunks, blobs, marker, from + 1, count);
        lemma_going_split(chunks, blobs, from, n);
        let rest = parcels_from(chunks, blobs, marker, from + 1, count);
        let here = chunks_for(chunks, blobs, from, n);
        if here.len() > 0 {
            let first = parcels_from(chunks, blobs, marker, from, count)[0];
            lemma_chunk_count_front(first, rest);
        }
    }
}

/// A chunk that goes to a blob is among those of the blob.
pub proof fn lemma_chunk_goes(
    chunks: Seq<NewChunkView>,
    blobs: Seq<int>,
    blob: int,
    n: int,
    j: int,
)
    requires
        0 <= j < n <= blobs.len(),
        blobs[j] == blob,
    ensures
        chunks_for(chunks, blobs, blob, n).contains(chunks[j]),
    decreases n,
{
    let here = chunks_for(chunks, blobs, blob, n);
    if j == n - 1 {
        assert(here[here.len() - 1] == chunks[j]);
    } else {
        lemma_chunk_goes(chunks, blobs, blob, n - 1, j);
        let before = chunks_for(chunks, blobs, blob, n - 1);
        let i = choose|i: int| 0 <= i < before.len() && before[i] == chunks[j];
        assert(here[i] == chunks[j]);
    }
}

/// Some parcel holds the chunk.
pub open spec fn sent(parcels: Seq<ParcelView>, chunk: NewChunkView) -> bool {
    exists|m: int| 0 <= m < parcels.len() && (#[trigger] parcels[m]).chunks.contains(chunk)
}

/// Every chunk that goes to a blob from `from` on is in a parcel.
pub proof fn lemma_parcels_cover(
    chunks: Seq<NewChunkView>,
    blobs: Seq<int>,
    marker: CompleteView,
    from: int,
    count: int,
    j: int,
)
    requires
        0 <= j < blobs.len(),
        0 <= from <= blobs[j] < count,
    ensures
        sent(parcels_from(chunks, blobs, marker, from, count), chunks[j]),
    decreases count - from,
{
    let n = blobs.len() as int;
    let all = parcels_from(chunks, blobs, marker, from, count);
    let rest = parcels_from(chunks, blobs, marker, from + 1, count);
    let here = chunks_for(chunks, blobs, from, n);
    if blobs[j] == from {
        lemma_chunk_goes(chunks, blobs, from, n, j);
        assert(here.len() > 0);
        assert(all[0].chunks == here);
    } else {
        lemma_parcels_cover(chunks, blobs, marker, from + 1, count, j);
        let m = choose|m: int|
            0 <= m < rest.len() && (#[trigger] rest[m]).chunks.contains(chunks[j]);
        if here.len() > 0 {
            assert(all[m + 1] == rest[m]);
        }
    }
}

/// What every parcel of a file is like: its blob is one of the vault, its chunks are of the file,
/// and only the last one holds the completion marker.
pub proof fn lemma_parcels_shape(
    chunks: Seq<NewChunkView>,
    blobs: Seq<int>,
    marker: CompleteView,
    from: int,
    count: int,
    file_id: Seq<u8>,
)
    requires
        0 <= from <= count,
        blobs.len() <= chunks.len(),
        forall|j: int| 0 <= j < chunks.len() ==> (#[trigger] chunks[j]).file_id == file_id,
    ensures
        ({
            let all = parcels_from(chunks, blobs, marker, from, count);
            &&& forall|m: int|
                0 <= m < all.len() ==> from <= (#[trigger] all[m]).blob < count
            &&& forall|m: int, i: int|
                0 <= m < all.len() && 0 <= i < all[m].chunks.len()
                    ==> (#[trigger] all[m].chunks[i]).file_id == file_id
            &&& forall|m: int|
                0 <= m < all.len() ==> (#[trigger] all[m]).completed_files == if m + 1
                    == all.len() {
                    seq![marker]
                } else {
                    Seq::empty()
                }
        }),
    decreases count - from,
{
    let n = blobs.len() as int;
    let all = parcels_from(chunks, blobs, marker, from, count);
    if from < count {
        lemma_parcels_shape(chunks, blobs, marker, from + 1, count, file_id);
        let rest = parcels_from(chunks, blobs, marker, from + 1, count);
        let here = chunks_for(chunks, blobs, from, n);
        lemma_chunks_for_files(chunks, blobs, from, n, file_id);
        if here.len() > 0 {
            assert forall|m: int| 0 <= m < all.len() implies from <= (#[trigger] all[m]).blob
                < count && all[m].completed_files == if m + 1 == all.len() {
                seq![marker]
            } else {
                Seq::empty()
            } by {
                if m > 0 {
                    assert(all[m] == rest[m - 1]);
                }
            }
            assert forall|m: int, i: int|
                0 <= m < all.len() && 0 <= i < all[m].chunks.len() implies (
            #[trigger] all[m].chunks[i]).file_id == file_id by {
                if m > 0 {
                    assert(all[m] == rest[m - 1]);
                    assert(rest[m - 1].chunks[i].file_id == file_id);
                } else {
                    assert(all[m].chunks == here);
                }
            }
        }
    }
}

proof fn lemma_chunks_for_files(
    chunks: Seq<NewChunkView>,
    blobs: Seq<int>,
    blob: int,
    n: int,
    file_id: Seq<u8>,
)
    requires
        0 <= n <= chunks.len(),
        forall|j: int| 0 <= j < chunks.len() ==> (#[trigger] chunks[j]).file_id == file_id,
    ensures
        forall|i: int|
            0 <= i < chunks_for(chunks, blobs, blob, n).len() ==> (#[trigger] chunks_for(
                chunks,
                blobs,
                blob,
                n,
            )[i]).file_id == file_id,
    decreases n,
{
    if n > 0 {
        lemma_chunks_for_files(chunks, blobs, blob, n - 1, file_id);
        let before = chunks_for(chunks, blobs, blob, n - 1);
        let here = chunks_for(chunks, blobs, blob, n);
        assert forall|i: int| 0 <= i < here.len() implies (#[trigger] here[i]).file_id
            == file_id by {
            if i < before.len() {
                assert(here[i] == before[i]);
            } else {
                assert(here[i] == chunks[n - 1]);
            }
        }
    }
}

/// The pieces that contents are cut into are the contents.
pub proof fn law_pieces_rejoin(contents: Seq<u8>, size: int)
    ensures
        joined(pieces_of(contents, size)) == contents,
        0 < size ==> forall|j: int|
            0 <= j < pieces_of(contents, size).len() ==> (#[trigger] pieces_of(
                contents,
                size,
            )[j]).len() <= size,
    decreases contents.len(),
{
    let pieces = pieces_of(contents, size);
    if size <= 0 || contents.len() <= size {
        assert(pieces.drop_last() =~= Seq::<Seq<u8>>::empty());
        assert(joined(Seq::<Seq<u8>>::empty()) =~= Seq::<u8>::empty());
        assert(joined(pieces) =~= contents);
    } else {
        let first = contents.take(size);
        let rest = pieces_of(contents.skip(size), size);
        law_pieces_rejoin(contents.skip(size), size);
        lemma_joined_front(first, rest);
        assert(first + contents.skip(size) =~= contents);
        assert forall|j: int| 0 <= j < pieces.len() implies (#[trigger] pieces[j]).len()
            <= size by {
            if j > 0 {
                assert(pieces[j] == rest[j - 1]);
            }
        }
    }
}

proof fn lemma_joined_front(first: Seq<u8>, rest: Seq<Seq<u8>>)
    ensures
        joined(seq![first] + rest) == first + joined(rest),
    decreases rest.len(),
{
    let all = seq![first] + rest;
    if rest.len() == 0 {
        assert(all.drop_last() =~= rest);
        assert(joined(rest) =~= Seq::<u8>::empty());
        assert(joined(all) =~= first + joined(rest));
    } else {
        lemma_joined_front(first, rest.drop_last());
        assert(all.drop_last() =~= seq![first] + rest.drop_last());
        assert(joined(all) =~= first + joined(rest));
    }
}

impl VaultView {
    /// The vault lists the chunk of the file, and it reads as what was sent.
    pub open spec fn lists(
        self,
        images: Seq<Seq<u8>>,
        file_id: Seq<u8>,
        chunk: NewChunkView,
        at: LocatedChunk,
    ) -> bool {
        &&& self.index.file_chunks(file_id).contains(at)
        &&& at.entry.sequence_number == chunk.sequence_number
        &&& self.chunk_contents(images, at) == Ok::<Seq<u8>, VaultError>(chunk.plaintext)
    }

    /// The vault lists the chunk of the file somewhere.
    pub open spec fn listed(
        self,
        images: Seq<Seq<u8>>,
        file_id: Seq<u8>,
        chunk: NewChunkView,
    ) -> bool {
        exists|at: LocatedChunk| #[trigger] self.lists(images, file_id, chunk, at)
    }
}

/// The parcels were delivered one after the other.
pub open spec fn all_delivered(
    parcels: Seq<ParcelView>,
    vaults: Seq<VaultView>,
    images: Seq<Seq<Seq<u8>>>,
) -> bool {
    &&& vaults.len() == parcels.len() + 1
    &&& images.len() == parcels.len() + 1
    &&& forall|k: int|
        #![trigger parcels[k]]
        0 <= k < parcels.len() ==> delivered(
            vaults[k],
            images[k],
            parcels[k].blob,
            parcels[k].chunks,
            parcels[k].completed_files,
            vaults[k + 1],
            images[k + 1],
        )
}

/// What one delivery of a file's chunks does to what is listed of the file.
proof fn lemma_delivery_lists(
    v: VaultView,
    images: Seq<Seq<u8>>,
    parcel: ParcelView,
    now: VaultView,
    now_images: Seq<Seq<u8>>,
    file_id: Seq<u8>,
    count: int,
)
    requires
        v.current_on(images, file_id, count),
        delivered(v, images, parcel.blob, parcel.chunks, parcel.completed_files, now, now_images),
        forall|i: int|
            0 <= i < parcel.chunks.len() ==> (#[trigger] parcel.chunks[i]).file_id == file_id,
    ensures
        now.index.file_chunks(file_id).len() == v.index.file_chunks(file_id).len()
            + parcel.chunks.len(),
        forall|chunk: NewChunkView|
            v.listed(images, file_id, chunk) ==> #[trigger] now.listed(now_images, file_id, chunk),
        forall|i: int|
            0 <= i < parcel.chunks.len() ==> now.listed(
                now_images,
                file_id,
                #[trigger] parcel.chunks[i],
            ),
{
    let b = v.blobs[parcel.blob];
    let tail = data_tail_of(b.entries(images[parcel.blob]).chunks);
    let entries = entries_at(parcel.chunks, tail);
    let fresh = locate_chunks(b.blob_id, entries);
    let p = of_file(file_id);
    let old_list = v.index.file_chunks(file_id);
    let new_list = now.index.file_chunks(file_id);
    lemma_delivery_listing(
        v,
        images,
        parcel.blob,
        parcel.chunks,
        parcel.completed_files,
        now,
        now_images,
        file_id,
        count,
    );
    assert forall|i: int| 0 <= i < fresh.len() implies p(#[trigger] fresh[i]) by {
        assert(parcel.chunks[i].file_id == file_id);
    }
    lemma_filter_all(fresh, p);
    assert(same_members(new_list, old_list + fresh));
    assert forall|chunk: NewChunkView| v.listed(images, file_id, chunk) implies #[trigger] now.listed(
        now_images,
        file_id,
        chunk,
    ) by {
        let at = choose|at: LocatedChunk| #[trigger] v.lists(images, file_id, chunk, at);
        lemma_contains_concat(old_list, fresh, at);
        assert((old_list + fresh).contains(at));
        assert(new_list.contains(at));
        lemma_filter_members(v.index.chunks, p, at);
        law_delivery_keeps_chunks(
            v,
            images,
            parcel.blob,
            parcel.chunks,
            parcel.completed_files,
            now,
            now_images,
            at,
            count,
        );
        assert(now.lists(now_images, file_id, chunk, at));
    }
    assert forall|i: int| 0 <= i < parcel.chunks.len() implies now.listed(
        now_images,
        file_id,
        #[trigger] parcel.chunks[i],
    ) by {
        let at = fresh[i];
        assert(fresh.contains(at));
        lemma_contains_concat(old_list, fresh, at);
        assert((old_list + fresh).contains(at));
        assert(new_list.contains(at));
        lemma_own_position(v.blobs, parcel.blob, 0);
        assert(at.entry == entries[i]);
        assert(now.lists(now_images, file_id, parcel.chunks[i], at));
    }
}

/// The entries hold no chunk of the file, and no marker of it that counts at least so many chunks.
pub open spec fn lists_nothing_of(entries: IndexView, file_id: Seq<u8>, count: int) -> bool {
    &&& forall|i: int|
        0 <= i < entries.chunks.len() ==> (#[trigger] entries.chunks[i]).file_id != file_id
    &&& forall|i: int|
        0 <= i < entries.completed_files.len() ==> (
        #[trigger] entries.completed_files[i]).file_id != file_id
            || entries.completed_files[i].total_chunks < count
}

impl VaultView {
    /// Every blob has a file that is consistent, and neither what the vault knows nor any of the
    /// files holds a chunk of the file, or a marker of it that counts at least so many chunks.
    pub open spec fn lacks(self, images: Seq<Seq<u8>>, file_id: Seq<u8>, count: int) -> bool {
        &&& self.sound(images)
        &&& self.index.file_chunks(file_id).len() == 0
        &&& all_below(self.index.file_completes(file_id), count)
        &&& forall|i: int|
            0 <= i < self.blobs.len() ==> lists_nothing_of(
                (#[trigger] self.blobs[i]).entries(images[i]),
                file_id,
                count,
            )
    }
}

/// A vault that knows what its files hold lacks a file where it knows of no chunk of it and of no
/// marker that counts enough.
pub proof fn law_unknown_file_is_lacking(
    v: VaultView,
    images: Seq<Seq<u8>>,
    file_id: Seq<u8>,
    count: int,
)
    requires
        v.consistent(images),
        v.index.file_chunks(file_id).len() == 0,
        all_below(v.index.file_completes(file_id), count),
    ensures
        v.lacks(images, file_id, count),
{
    let cp = |c: LocatedComplete| c.entry.file_id == file_id;
    assert forall|i: int| 0 <= i < v.blobs.len() implies lists_nothing_of(
        (#[trigger] v.blobs[i]).entries(images[i]),
        file_id,
        count,
    ) by {
        let b = v.blobs[i];
        let entries = b.entries(images[i]);
        let here = |c: LocatedChunk| c.blob_id == b.blob_id;
        let marks_here = |c: LocatedComplete| c.blob_id == b.blob_id;
        let chunks = locate_chunks(b.blob_id, entries.chunks);
        let marks = locate_completes(b.blob_id, entries.completed_files);
        assert(v.knows(i, images[i]));
        assert forall|k: int| 0 <= k < entries.chunks.len() implies (
        #[trigger] entries.chunks[k]).file_id != file_id by {
            assert(chunks.contains(chunks[k]));
            lemma_filter_members(v.index.chunks, here, chunks[k]);
            lemma_filter_members(v.index.chunks, of_file(file_id), chunks[k]);
        }
        assert forall|k: int| 0 <= k < entries.completed_files.len() implies (
        #[trigger] entries.completed_files[k]).file_id != file_id
            || entries.completed_files[k].total_chunks < count by {
            assert(marks.contains(marks[k]));
            lemma_filter_members(v.index.completed_files, marks_here, marks[k]);
            lemma_filter_members(v.index.completed_files, cp, marks[k]);
            if entries.completed_files[k].file_id == file_id {
                let all = v.index.file_completes(file_id);
                let m = choose|m: int| 0 <= m < all.len() && all[m] == marks[k];
                assert(all[m].entry.total_chunks < count);
            }
        }
    }
}

/// A vault that lacks a file is current on it: there is nothing to know.
proof fn lemma_lacking_is_current(
    v: VaultView,
    images: Seq<Seq<u8>>,
    file_id: Seq<u8>,
    count: int,
)
    requires
        v.lacks(images, file_id, count),
    ensures
        v.current_on(images, file_id, count),
        v.index.completes_from(file_id, count).len() == 0,
{
    let p = of_file(file_id);
    let cp = counting(file_id, count);
    let fp = |c: LocatedComplete| c.entry.file_id == file_id;
    let known = v.index.chunks;
    let known_marks = v.index.completed_files;
    assert forall|c: LocatedChunk| #[trigger] known.contains(c) implies !p(c) by {
        lemma_filter_members(known, p, c);
    }
    assert forall|c: LocatedComplete| #[trigger] known_marks.contains(c) implies !cp(c) by {
        lemma_filter_members(known_marks, fp, c);
        if fp(c) {
            let all = v.index.file_completes(file_id);
            let m = choose|m: int| 0 <= m < all.len() && all[m] == c;
            assert(all[m].entry.total_chunks < count);
        }
    }
    assert forall|k: int| 0 <= k < known_marks.len() implies !cp(#[trigger] known_marks[k]) by {
        assert(known_marks.contains(known_marks[k]));
    }
    lemma_filter_none(known_marks, cp);
    assert forall|i: int| 0 <= i < v.blobs.len() implies #[trigger] v.knows_file(
        i,
        images[i],
        file_id,
        count,
    ) by {
        let b = v.blobs[i];
        let entries = b.entries(images[i]);
        let here = |c: LocatedChunk| c.blob_id == b.blob_id;
        let marks_here = |c: LocatedComplete| c.blob_id == b.blob_id;
        let chunks = locate_chunks(b.blob_id, entries.chunks);
        let marks = locate_completes(b.blob_id, entries.completed_files);
        let chunks_known = v.index.blob_chunks(b.blob_id);
        let marks_known = v.index.blob_completes(b.blob_id);
        assert(lists_nothing_of(entries, file_id, count));
        assert forall|k: int| 0 <= k < chunks.len() implies !p(#[trigger] chunks[k]) by {
            assert(entries.chunks[k].file_id != file_id);
        }
        assert forall|k: int| 0 <= k < marks.len() implies !cp(#[trigger] marks[k]) by {
            assert(entries.completed_files[k].file_id != file_id
                || entries.completed_files[k].total_chunks < count);
        }
        assert forall|k: int| 0 <= k < chunks_known.len() implies !p(
            #[trigger] chunks_known[k],
        ) by {
            assert(chunks_known.contains(chunks_known[k]));
            lemma_filter_members(known, here, chunks_known[k]);
        }
        assert forall|k: int| 0 <= k < marks_known.len() implies !cp(
            #[trigger] marks_known[k],
        ) by {
            assert(marks_known.contains(marks_known[k]));
            lemma_filter_members(known_marks, marks_here, marks_known[k]);
        }
        lemma_filter_none(chunks, p);
        lemma_filter_none(marks, cp);
        lemma_filter_none(chunks_known, p);
        lemma_filter_none(marks_known, cp);
    }
}

/// All markers count fewer chunks than this.
pub open spec fn all_below(marks: Seq<LocatedComplete>, count: int) -> bool {
    forall|i: int| 0 <= i < marks.len() ==> (#[trigger] marks[i]).entry.total_chunks < count
}

/// What one delivery does to the completion markers of a file.
proof fn lemma_delivery_marks(
    v: VaultView,
    images: Seq<Seq<u8>>,
    parcel: ParcelView,
    now: VaultView,
    now_images: Seq<Seq<u8>>,
    marker: CompleteView,
    count: int,
)
    requires
        v.current_on(images, marker.file_id, count),
        delivered(v, images, parcel.blob, parcel.chunks, parcel.completed_files, now, now_images),
        parcel.completed_files == Seq::<CompleteView>::empty() || parcel.completed_files == seq![
            marker,
        ],
        marker.total_chunks >= count,
        all_below(v.index.completes_from(marker.file_id, count), marker.total_chunks as int),
    ensures
        parcel.completed_files.len() == 0 ==> all_below(
            now.index.completes_from(marker.file_id, count),
            marker.total_chunks as int,
        ) && now.index.completes_from(marker.file_id, count).len() == v.index.completes_from(
            marker.file_id,
            count,
        ).len(),
        parcel.completed_files.len() == 1 ==> marked(
            now.index.completes_from(marker.file_id, count),
            marker,
        ),
{
    let file_id = marker.file_id;
    let id = v.blobs[parcel.blob].blob_id;
    let marks = locate_completes(id, parcel.completed_files);
    let p = counting(file_id, count);
    let old_list = v.index.completes_from(file_id, count);
    let new_list = now.index.completes_from(file_id, count);
    lemma_delivery_listing(
        v,
        images,
        parcel.blob,
        parcel.chunks,
        parcel.completed_files,
        now,
        now_images,
        file_id,
        count,
    );
    assert forall|i: int| 0 <= i < marks.len() implies p(#[trigger] marks[i]) by {
        assert(marks[i].entry == parcel.completed_files[i]);
    }
    lemma_filter_all(marks, p);
    lemma_new_marks(new_list, old_list, marks, marker);
}

proof fn lemma_new_marks(
    all: Seq<LocatedComplete>,
    old_marks: Seq<LocatedComplete>,
    new_marks: Seq<LocatedComplete>,
    marker: CompleteView,
)
    requires
        same_members(all, old_marks + new_marks),
        all_below(old_marks, marker.total_chunks as int),
        forall|i: int| 0 <= i < new_marks.len() ==> (#[trigger] new_marks[i]).entry == marker,
    ensures
        new_marks.len() == 0 ==> all_below(all, marker.total_chunks as int),
        new_marks.len() > 0 ==> marked(all, marker),
{
    assert forall|i: int| 0 <= i < all.len() implies (#[trigger] all[i]).entry == marker
        && new_marks.len() > 0 || all[i].entry.total_chunks < marker.total_chunks by {
        assert(all.contains(all[i]));
        lemma_contains_concat(old_marks, new_marks, all[i]);
        if old_marks.contains(all[i]) {
            let k = choose|k: int| 0 <= k < old_marks.len() && old_marks[k] == all[i];
            assert(old_marks[k].entry.total_chunks < marker.total_chunks);
        } else {
            let k = choose|k: int| 0 <= k < new_marks.len() && new_marks[k] == all[i];
            assert(new_marks[k].entry == marker);
        }
    }
    if new_marks.len() > 0 {
        assert(new_marks.contains(new_marks[0]));
        lemma_contains_concat(old_marks, new_marks, new_marks[0]);
        assert(all.contains(new_marks[0]));
        let i = choose|i: int| 0 <= i < all.len() && all[i] == new_marks[0];
        assert(all[i].entry == marker);
    }
}

/// How the vault stands after the first `k` parcels of a file.
proof fn lemma_parcels_arrive(
    parcels: Seq<ParcelView>,
    vaults: Seq<VaultView>,
    images: Seq<Seq<Seq<u8>>>,
    file_id: Seq<u8>,
    marker: CompleteView,
    count: int,
    k: int,
)
    requires
        all_delivered(parcels, vaults, images),
        vaults[0].current_on(images[0], file_id, count),
        vaults[0].index.file_chunks(file_id).len() == 0,
        all_below(vaults[0].index.completes_from(file_id, count), marker.total_chunks as int),
        marker.file_id == file_id,
        marker.total_chunks >= count,
        forall|m: int, i: int|
            0 <= m < parcels.len() && 0 <= i < parcels[m].chunks.len() ==> (
            #[trigger] parcels[m].chunks[i]).file_id == file_id,
        forall|m: int|
            0 <= m < parcels.len() ==> (#[trigger] parcels[m]).completed_files == if m + 1
                == parcels.len() {
                seq![marker]
            } else {
                Seq::empty()
            },
        0 <= k <= parcels.len(),
    ensures
        vaults[k].current_on(images[k], file_id, count),
        vaults[0].consistent(images[0]) ==> vaults[k].consistent(images[k]),
        vaults[k].blobs == vaults[0].blobs,
        vaults[k].index.file_chunks(file_id).len() == chunk_count(parcels.take(k)),
        forall|m: int, i: int|
            0 <= m < k && 0 <= i < parcels[m].chunks.len() ==> vaults[k].listed(
                images[k],
                file_id,
                #[trigger] parcels[m].chunks[i],
            ),
        k < parcels.len() || k == 0 ==> all_below(
            vaults[k].index.completes_from(file_id, count),
            marker.total_chunks as int,
        ) && vaults[k].index.completes_from(file_id, count).len()
            == vaults[0].index.completes_from(file_id, count).len(),
        0 < k == parcels.len() ==> marked(
            vaults[k].index.completes_from(file_id, count),
            marker,
        ),
    decreases k,
{
    if k == 0 {
        assert(chunk_count(parcels.take(0)) == 0);
    } else {
        lemma_parcels_arrive(parcels, vaults, images, file_id, marker, count, k - 1);
        let parcel = parcels[k - 1];
        let v = vaults[k - 1];
        let now = vaults[k];
        assert(delivered(
            v,
            images[k - 1],
            parcel.blob,
            parcel.chunks,
            parcel.completed_files,
            now,
            images[k],
        ));
        law_delivery_keeps_currency(
            v,
            images[k - 1],
            parcel.blob,
            parcel.chunks,
            parcel.completed_files,
            now,
            images[k],
            file_id,
            count,
        );
        if vaults[0].consistent(images[0]) {
            law_delivery_keeps_consistency(
                v,
                images[k - 1],
                parcel.blob,
                parcel.chunks,
                parcel.completed_files,
                now,
                images[k],
            );
        }
        assert forall|i: int| 0 <= i < parcel.chunks.len() implies (
        #[trigger] parcel.chunks[i]).file_id == file_id by {
            assert(parcels[k - 1].chunks[i].file_id == file_id);
        }
        lemma_delivery_lists(v, images[k - 1], parcel, now, images[k], file_id, count);
        lemma_delivery_marks(v, images[k - 1], parcel, now, images[k], marker, count);
        assert(parcels.take(k).drop_last() =~= parcels.take(k - 1));
        assert(parcels.take(k).last() == parcel);
        assert forall|m: int, i: int|
            0 <= m < k && 0 <= i < parcels[m].chunks.len() implies vaults[k].listed(
            images[k],
            file_id,
            #[trigger] parcels[m].chunks[i],
        ) by {
            if m < k - 1 {
                assert(v.listed(images[k - 1], file_id, parcels[m].chunks[i]));
            } else {
                assert(now.listed(images[k], file_id, parcel.chunks[i]));
            }
        }
    }
}

proof fn lemma_sizes_add_up(
    chunks: Seq<LocatedChunk>,
    pieces: Seq<Seq<u8>>,
    k: int,
)
    requires
        chunks.len() == pieces.len(),
        0 <= k <= chunks.len(),
        forall|j: int|
            0 <= j < chunks.len() ==> (#[trigger] chunks[j]).entry.plaintext_length
                == pieces[j].len(),
    ensures
        total_len(chunks.take(k)) == joined(pieces.take(k)).len(),
    decreases k,
{
    if k > 0 {
        lemma_sizes_add_up(chunks, pieces, k - 1);
        assert(chunks.take(k).drop_last() =~= chunks.take(k - 1));
        assert(pieces.take(k).drop_last() =~= pieces.take(k - 1));
        assert(chunks.take(k).last() == chunks[k - 1]);
        assert(pieces.take(k).last() == pieces[k - 1]);
    }
}

/// Chunks that are listed once for every piece of the contents are the contents.
proof fn lemma_listed_pieces(
    v: VaultView,
    images: Seq<Seq<u8>>,
    file_id: Seq<u8>,
    contents: Seq<u8>,
    size: int,
)
    requires
        contents.len() <= u64::MAX,
        v.index.file_chunks(file_id).len() == pieces_of(contents, size).len(),
        pieces_of(contents, size).len() <= u64::MAX,
        forall|j: int|
            0 <= j < pieces_of(contents, size).len() ==> v.listed(
                images,
                file_id,
                #[trigger] chunks_of(file_id, contents, size)[j],
            ),
    ensures
        v.index.ordered(file_id) matches Ok(chunks) && v.contents(images, chunks) == contents,
        v.index.size(file_id) == Ok::<u64, VaultError>(contents.len() as u64),
        v.index.ordered(file_id)->Ok_0.len() == pieces_of(contents, size).len(),
        forall|j: int|
            0 <= j < pieces_of(contents, size).len() ==> {
                let chunk = #[trigger] v.index.ordered(file_id)->Ok_0[j];
                &&& v.index.file_chunks(file_id).contains(chunk)
                &&& chunk.entry.plaintext_length == pieces_of(contents, size)[j].len()
            },
{
    let pieces = pieces_of(contents, size);
    let chunks = chunks_of(file_id, contents, size);
    let list = v.index.file_chunks(file_id);
    let sorted = by_number(list);
    let n = pieces.len() as int;
    lemma_piece_lengths(contents, size);
    assert forall|j: int| 0 <= j < n implies #[trigger] has_number(list, j) by {
        assert(v.listed(images, file_id, chunks[j]));
        let at = choose|at: LocatedChunk| #[trigger] v.lists(images, file_id, chunks[j], at);
        let i = choose|i: int| 0 <= i < list.len() && list[i] == at;
        assert(list[i].entry.sequence_number == j);
    }
    lemma_covering_is_numbered(list);
    lemma_by_number(list);
    assert forall|j: int| 0 <= j < n implies v.lists(
        images,
        file_id,
        chunks[j],
        #[trigger] sorted[j],
    ) by {
        assert(v.listed(images, file_id, chunks[j]));
        let at = choose|at: LocatedChunk| #[trigger] v.lists(images, file_id, chunks[j], at);
        lemma_numbered_place(list, at);
    }
    assert(v.plaintexts(images, sorted) =~= pieces) by {
        assert forall|j: int| 0 <= j < n implies v.chunk_contents(images, sorted[j])->Ok_0
            == pieces[j] by {
            assert(v.lists(images, file_id, chunks[j], sorted[j]));
        }
    }
    law_pieces_rejoin(contents, size);
    assert forall|j: int| 0 <= j < n implies (#[trigger] sorted[j]).entry.plaintext_length
        == pieces[j].len() by {
        assert(v.lists(images, file_id, chunks[j], sorted[j]));
    }
    lemma_sizes_add_up(sorted, pieces, n);
    assert(sorted.take(n) =~= sorted);
    assert(pieces.take(n) =~= pieces);
}

/// What was put into a vault is what comes out of it.
///
/// Once every parcel of a file that the vault and its files lacked is delivered, the vault knows the
/// file as complete, with the size and the hash of the contents that were put in; its chunks in
/// order read as those contents, and all of them can be read. Completion markers that were there
/// before do not matter as long as they count fewer chunks, and it does not matter what the vault
/// knows of other files.
pub proof fn law_stored_file_is_there(
    file_id: Seq<u8>,
    contents: Seq<u8>,
    plan: FilePlan,
    vaults: Seq<VaultView>,
    images: Seq<Seq<Seq<u8>>>,
)
    requires
        vaults.len() > 0,
        vaults[0].lacks(images[0], file_id, plan.blobs.len() as int),
        plan.chunk_size > 0,
        plan.blobs.len() == pieces_of(contents, plan.chunk_size).len(),
        plan.blobs.len() <= u64::MAX,
        forall|j: int|
            0 <= j < plan.blobs.len() ==> 0 <= #[trigger] plan.blobs[j] < vaults[0].blobs.len(),
        contents.len() + AEAD_FRAME_OVERHEAD <= usize::MAX,
        all_delivered(vaults[0].parcels(file_id, contents, plan), vaults, images),
    ensures
        ({
            let v = vaults.last();
            let now = images.last();
            &&& v.current_on(now, file_id, plan.blobs.len() as int)
            &&& vaults[0].consistent(images[0]) ==> v.consistent(now)
            &&& v.index.ordered(file_id) matches Ok(chunks)
            &&& v.contents(now, chunks) == contents
            &&& v.all_readable(now, chunks)
            &&& chunks.len() == plan.blobs.len()
            &&& v.index.size(file_id) == Ok::<u64, VaultError>(contents.len() as u64)
            &&& v.index.incompleteness(file_id) is None
            &&& marked(
                v.index.file_completes(file_id),
                marker_of(file_id, contents, plan.blobs.len() as int),
            )
            &&& v.checked_contents(file_id, contents) == Ok::<Seq<u8>, VaultError>(contents)
        }),
{
    let count = vaults[0].blobs.len() as int;
    let n = plan.blobs.len() as int;
    let size = plan.chunk_size;
    let chunks = chunks_of(file_id, contents, size);
    let marker = marker_of(file_id, contents, n);
    let parcels = vaults[0].parcels(file_id, contents, plan);
    let k = parcels.len() as int;
    let v = vaults[k];
    let now = images[k];
    lemma_piece_lengths(contents, size);
    lemma_parcels_shape(chunks, plan.blobs, marker, 0, count, file_id);
    lemma_lacking_is_current(vaults[0], images[0], file_id, n);
    lemma_parcels_arrive(parcels, vaults, images, file_id, marker, n, k);
    lemma_marked_from(v.index, file_id, n, marker);
    lemma_parcels_count(chunks, plan.blobs, marker, 0, count);
    lemma_going_bounds(plan.blobs, 0, n, count);
    assert(parcels.take(k) =~= parcels);
    assert forall|j: int| 0 <= j < n implies v.listed(
        now,
        file_id,
        #[trigger] chunks_of(file_id, contents, size)[j],
    ) by {
        assert(0 <= plan.blobs[j] < count);
        lemma_parcels_cover(chunks, plan.blobs, marker, 0, count, j);
        let m = choose|m: int|
            0 <= m < parcels.len() && (#[trigger] parcels[m]).chunks.contains(chunks[j]);
        let i = choose|i: int|
            0 <= i < parcels[m].chunks.len() && parcels[m].chunks[i] == chunks[j];
        assert(v.listed(now, file_id, parcels[m].chunks[i]));
    }
    assert(k > 0) by {
        if k == 0 {
            assert(chunk_count(parcels) == 0);
        }
    }
    lemma_listed_pieces(v, now, file_id, contents, size);
    let ordered = v.index.ordered(file_id)->Ok_0;
    assert forall|j: int| 0 <= j < ordered.len() implies v.readable(now, #[trigger] ordered[j])
        && frame_fits(ordered[j].entry) by {
        lemma_filter_members(v.index.chunks, of_file(file_id), ordered[j]);
        law_known_chunks_are_readable(v, now, ordered[j], n);
        lemma_piece_within(contents, size, j);
    }
    lemma_marked_latest(v.index.file_completes(file_id), marker);
}

/// As long as parcels of a file are missing, the file is refused: as not found before the first of
/// them, as incomplete afterwards.
pub proof fn law_partial_file_is_refused(
    file_id: Seq<u8>,
    contents: Seq<u8>,
    plan: FilePlan,
    vaults: Seq<VaultView>,
    images: Seq<Seq<Seq<u8>>>,
    k: int,
)
    requires
        vaults.len() > 0,
        vaults[0].lacks(images[0], file_id, 0),
        plan.blobs.len() == pieces_of(contents, plan.chunk_size).len(),
        all_delivered(vaults[0].parcels(file_id, contents, plan), vaults, images),
        0 <= k < vaults[0].parcels(file_id, contents, plan).len(),
    ensures
        vaults[k].current_on(images[k], file_id, 0),
        vaults[0].consistent(images[0]) ==> vaults[k].consistent(images[k]),
        vaults[k].index.incompleteness(file_id) == Some(
            if k == 0 {
                VaultError::FileNotFound
            } else {
                VaultError::IncompleteFile
            },
        ),
{
    let count = vaults[0].blobs.len() as int;
    let chunks = chunks_of(file_id, contents, plan.chunk_size);
    let marker = marker_of(file_id, contents, plan.blobs.len() as int);
    let parcels = vaults[0].parcels(file_id, contents, plan);
    lemma_parcels_shape(chunks, plan.blobs, marker, 0, count, file_id);
    lemma_lacking_is_current(vaults[0], images[0], file_id, 0);
    lemma_parcels_arrive(parcels, vaults, images, file_id, marker, 0, k);
    lemma_counting_all(vaults[0].index, file_id);
    lemma_counting_all(vaults[k].index, file_id);
    if k > 0 {
        lemma_count_positive(chunks, plan.blobs, marker, 0, count, k);
    }
}

proof fn lemma_count_positive(
    chunks: Seq<NewChunkView>,
    blobs: Seq<int>,
    marker: CompleteView,
    from: int,
    count: int,
    k: int,
)
    requires
        0 < k <= parcels_from(chunks, blobs, marker, from, count).len(),
    ensures
        chunk_count(parcels_from(chunks, blobs, marker, from, count).take(k)) > 0,
    decreases count - from,
{
    let all = parcels_from(chunks, blobs, marker, from, count);
    let rest = parcels_from(chunks, blobs, marker, from + 1, count);
    let here = chunks_for(chunks, blobs, from, blobs.len() as int);
    if here.len() == 0 {
        lemma_count_positive(chunks, blobs, marker, from + 1, count, k);
    } else {
        lemma_chunk_count_front(all[0], rest.take(k - 1));
        assert(all.take(k) =~= seq![all[0]] + rest.take(k - 1));
        lemma_count_natural(rest.take(k - 1));
    }
}

proof fn lemma_count_natural(parcels: Seq<ParcelView>)
    ensures
        chunk_count(parcels) >= 0,
    decreases parcels.len(),
{
    if parcels.len() > 0 {
        lemma_count_natural(parcels.drop_last());
    }
}

proof fn lemma_piece_within(contents: Seq<u8>, size: int, j: int)
    requires
        0 <= j < pieces_of(contents, size).len(),
    ensures
        pieces_of(contents, size)[j].len() <= contents.len(),
{
    law_pieces_rejoin(contents, size);
    lemma_piece_of_joined(pieces_of(contents, size), j);
}

/// A whole file that is complete and all of whose chunks can be read is read as what it holds,
/// held against its completion marker: the first step and every later one leads on or ends with
/// that.
pub proof fn law_file_read_starts(v: VaultView, images: Seq<Seq<u8>>, file_id: Seq<u8>)
    requires
        v.index.incompleteness(file_id) is None,
        v.index.ordered(file_id) is Ok,
        v.all_readable(images, v.index.ordered(file_id)->Ok_0),
        total_len(v.index.ordered(file_id)->Ok_0) <= u64::MAX,
    ensures
        ({
            let chunks = v.index.ordered(file_id)->Ok_0;
            let contents = v.contents(images, chunks);
            match v.file_start(file_id) {
                StepView::Ask(next) => {
                    &&& next.file_id == file_id
                    &&& next.range.tracks(v, images)
                    &&& next.range.chunks == chunks
                    &&& next.range.offset == 0
                    &&& next.range.end == contents.len()
                },
                StepView::Done(result) => result == v.checked_contents(file_id, contents),
            }
        }),
{
    let chunks = v.index.ordered(file_id)->Ok_0;
    let contents = v.contents(images, chunks);
    let size = total_len(chunks);
    lemma_total_len_grows(chunks, 0);
    lemma_contents_len(v, images, chunks);
    law_range_read_starts(v, images, file_id, 0, size as u64);
    assert(contents.subrange(0, contents.len() as int) =~= contents);
}

/// A step of reading a whole file leads on, or ends with what the file holds, held against its
/// completion marker.
pub proof fn law_file_is_read(
    file: ReadFileView,
    v: VaultView,
    images: Seq<Seq<u8>>,
    reply: Reply,
)
    requires
        file.range.tracks(v, images),
        file.range.offset == 0,
        file.range.end == v.contents(images, file.range.chunks).len(),
        honest(images[file.range.at], file.range.asks(), reply),
    ensures
        ({
            let chunks = file.range.chunks;
            let contents = v.contents(images, chunks);
            match v.file_step(file.file_id, file.range.on_reply(v, reply)) {
                StepView::Ask(next) => {
                    &&& next.file_id == file.file_id
                    &&& next.range.tracks(v, images)
                    &&& next.range.chunks == chunks
                    &&& next.range.offset == 0
                    &&& next.range.end == contents.len()
                },
                StepView::Done(result) => result == v.checked_contents(file.file_id, contents),
            }
        }),
{
    let contents = v.contents(images, file.range.chunks);
    law_range_is_what_the_file_holds(file.range, v, images, reply);
    assert(contents.subrange(0, contents.len() as int) =~= contents);
}

} // verus!
