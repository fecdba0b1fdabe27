//! How large blobs may become, and how much a file adds to them.

use vstd::prelude::*;

use crate::blob::{data_tail_of, BlobView};
use crate::commit::{added_entries, entries_at};
use crate::contents::{delivered, law_delivery_keeps_consistency, lemma_blob_index_replaced};
use crate::error::VaultError;
use crate::index::{
    chunks_needed, law_transaction_decodes, transaction_bytes, IndexView, NewChunkView,
    INDEX_CHUNK_ENTRY_BYTES, INDEX_FILE_COMPLETE_ENTRY_BYTES,
};
use crate::plan::{
    chunks_for, chunks_of, chunks_size, estimated_size, last_planned, law_piece_count,
    lemma_blob_size_natural, lemma_chosen_in_range, lemma_piece_lengths, lemma_plan_shape,
    lemma_split_plan_shape, nothing_planned, piece_sizes, pieces_of, split_plan, write_size,
    FilePlan, CHUNK_WRITE_OVERHEAD,
};
use crate::storing::{all_delivered, lemma_parcels_cover};
use crate::transfer::{marker_of, parcels_from, ParcelView};
use crate::types::{ChunkView, CompleteView};
use crate::vault::{locate_chunks, locate_completes, LocatedChunk, VaultView};

verus! {

/// Bytes that go to a blob where the pieces have these sizes and go to these blobs: plaintext,
/// frames and index entries.
pub open spec fn bytes_for(sizes: Seq<int>, blobs: Seq<int>, blob: int) -> int
    decreases sizes.len(),
{
    if sizes.len() == 0 {
        0
    } else {
        bytes_for(sizes.drop_last(), blobs.drop_last(), blob) + if blobs.last() == blob {
            sizes.last() + CHUNK_WRITE_OVERHEAD
        } else {
            0
        }
    }
}

/// No piece goes to a blob behind this one.
pub open spec fn none_behind(blobs: Seq<int>, blob: int) -> bool {
    forall|j: int| 0 <= j < blobs.len() ==> #[trigger] blobs[j] <= blob
}

/// The bytes of the completion marker, where it goes to this blob.
pub open spec fn marker_bytes(blobs: Seq<int>, blob: int) -> int {
    if blobs.contains(blob) && none_behind(blobs, blob) {
        INDEX_FILE_COMPLETE_ENTRY_BYTES as int
    } else {
        0
    }
}

proof fn lemma_bytes_for_none(sizes: Seq<int>, blobs: Seq<int>, blob: int)
    requires
        sizes.len() == blobs.len(),
        !blobs.contains(blob),
    ensures
        bytes_for(sizes, blobs, blob) == 0,
    decreases sizes.len(),
{
    if sizes.len() > 0 {
        assert(blobs[blobs.len() - 1] != blob);
        assert forall|j: int| 0 <= j < blobs.drop_last().len() implies blobs.drop_last()[j]
            != blob by {
            assert(blobs[j] != blob);
        }
        lemma_bytes_for_none(sizes.drop_last(), blobs.drop_last(), blob);
    }
}

proof fn lemma_bytes_for_some(sizes: Seq<int>, blobs: Seq<int>, blob: int)
    requires
        sizes.len() == blobs.len(),
        forall|j: int| 0 <= j < sizes.len() ==> 0 <= #[trigger] sizes[j],
    ensures
        bytes_for(sizes, blobs, blob) >= 0,
        blobs.contains(blob) ==> bytes_for(sizes, blobs, blob) > 0,
    decreases sizes.len(),
{
    if sizes.len() > 0 {
        let front = sizes.drop_last();
        assert forall|j: int| 0 <= j < front.len() implies 0 <= #[trigger] front[j] by {
            assert(front[j] == sizes[j]);
        }
        lemma_bytes_for_some(front, blobs.drop_last(), blob);
        assert(sizes[sizes.len() - 1] >= 0);
        if blobs.contains(blob) && blobs.last() != blob {
            let j = choose|j: int| 0 <= j < blobs.len() && blobs[j] == blob;
            assert(blobs.drop_last()[j] == blob);
        }
    }
}

proof fn lemma_sizes_natural(len: int, size: int)
    requires
        0 <= len,
        0 < size,
    ensures
        forall|j: int|
            0 <= j < piece_sizes(len, size).len() ==> 0 <= #[trigger] piece_sizes(len, size)[j],
    decreases len,
{
    if len > size {
        lemma_sizes_natural(len - size, size);
        let sizes = piece_sizes(len, size);
        let rest = piece_sizes(len - size, size);
        assert forall|j: int| 0 <= j < sizes.len() implies 0 <= #[trigger] sizes[j] by {
            if j > 0 {
                assert(sizes[j] == rest[j - 1]);
            }
        }
    }
}

/// What is planned for each blob is what goes to it, and it has room for that.
proof fn lemma_planned_is_received(v: VaultView, sizes: Seq<int>, blob: int)
    requires
        v.blobs.len() > 0,
        0 <= blob < v.blobs.len(),
        split_plan(v, sizes).refusal is None,
        forall|j: int| 0 <= j < sizes.len() ==> 0 <= #[trigger] sizes[j],
    ensures
        split_plan(v, sizes).planned[blob] == bytes_for(sizes, split_plan(v, sizes).blobs, blob),
    decreases sizes.len(),
{
    lemma_split_plan_shape(v, sizes);
    if sizes.len() > 0 {
        let front = sizes.drop_last();
        let before = split_plan(v, front);
        let plan = split_plan(v, sizes);
        let bytes = sizes.last() + CHUNK_WRITE_OVERHEAD;
        assert forall|j: int| 0 <= j < front.len() implies 0 <= #[trigger] front[j] by {
            assert(front[j] == sizes[j]);
        }
        assert(before.refusal is None);
        lemma_planned_is_received(v, front, blob);
        lemma_split_plan_shape(v, front);
        lemma_chosen_in_range(before.vault, before.planned, bytes);
        let i = before.vault.chosen(before.planned, bytes)->Ok_0;
        lemma_blob_size_natural(before.vault, i);
        assert(plan.blobs.drop_last() =~= before.blobs);
        assert(sizes[sizes.len() - 1] >= 0);
    }
}

proof fn lemma_not_overfull(v: VaultView, planned: Seq<u64>, from: int, blob: int)
    requires
        0 <= from <= blob < planned.len(),
        v.overfull(planned, from) is None,
        planned[blob] > 0,
    ensures
        v.blob_size(blob) + planned[blob] <= v.config.max_blob_size,
    decreases blob - from,
{
    if from < blob {
        lemma_not_overfull(v, planned, from + 1, blob);
    }
}

proof fn lemma_last_planned(planned: Seq<u64>, blob: int)
    requires
        0 <= blob < planned.len(),
        planned[blob] > 0,
        forall|i: int| blob < i < planned.len() ==> #[trigger] planned[i] == 0,
    ensures
        last_planned(planned) == Some(blob),
    decreases planned.len(),
{
    if blob < planned.len() - 1 {
        assert(planned[planned.len() - 1] == 0);
        let front = planned.drop_last();
        assert forall|i: int| blob < i < front.len() implies #[trigger] front[i] == 0 by {
            assert(planned[i] == 0);
        }
        lemma_last_planned(front, blob);
    }
}

proof fn lemma_all_to_one(sizes: Seq<int>, blobs: Seq<int>, blob: int)
    requires
        sizes.len() == blobs.len(),
        forall|j: int| 0 <= j < blobs.len() ==> #[trigger] blobs[j] == blob,
    ensures
        bytes_for(sizes, blobs, blob) == sum_of(sizes) + sizes.len() * CHUNK_WRITE_OVERHEAD,
    decreases sizes.len(),
{
    if sizes.len() > 0 {
        assert(blobs[blobs.len() - 1] == blob);
        assert forall|j: int| 0 <= j < blobs.drop_last().len() implies #[trigger] blobs.drop_last()[j]
            == blob by {
            assert(blobs[j] == blob);
        }
        lemma_all_to_one(sizes.drop_last(), blobs.drop_last(), blob);
    }
}

/// The sum of some numbers.
pub open spec fn sum_of(sizes: Seq<int>) -> int
    decreases sizes.len(),
{
    if sizes.len() == 0 {
        0
    } else {
        sum_of(sizes.drop_last()) + sizes.last()
    }
}

proof fn lemma_sum_front(first: int, rest: Seq<int>)
    ensures
        sum_of(seq![first] + rest) == first + sum_of(rest),
    decreases rest.len(),
{
    let all = seq![first] + rest;
    if rest.len() == 0 {
        assert(all.drop_last() =~= rest);
        assert(sum_of(rest) == 0);
    } else {
        lemma_sum_front(first, rest.drop_last());
        assert(all.drop_last() =~= seq![first] + rest.drop_last());
    }
}

/// The pieces of a file are as long together as the file.
pub proof fn law_pieces_add_up(len: int, size: int)
    requires
        0 <= len,
        0 < size,
    ensures
        sum_of(piece_sizes(len, size)) == len,
    decreases len,
{
    let sizes = piece_sizes(len, size);
    if len > size {
        law_pieces_add_up(len - size, size);
        lemma_sum_front(size, piece_sizes(len - size, size));
    } else {
        assert(sizes.drop_last() =~= Seq::<int>::empty());
        assert(sum_of(Seq::<int>::empty()) == 0);
    }
}

/// A plan leaves every blob that receives anything within the configured size, and counts the
/// completion marker with the last of them.
pub proof fn law_plan_keeps_to_the_limit(v: VaultView, len: int, plan: FilePlan, blob: int)
    requires
        v.valid(),
        0 <= len,
        v.file_plan(len).0 == Ok::<FilePlan, VaultError>(plan),
        plan.blobs.contains(blob),
    ensures
        v.blob_size(blob) + bytes_for(piece_sizes(len, plan.chunk_size), plan.blobs, blob)
            + marker_bytes(plan.blobs, blob) <= v.config.max_blob_size,
{
    let contents = Seq::new(len as nat, |i: int| 0u8);
    lemma_plan_shape(v, contents, plan);
    let sizes = piece_sizes(len, plan.chunk_size);
    let at = choose|j: int| 0 <= j < plan.blobs.len() && plan.blobs[j] == blob;
    assert(0 <= plan.blobs[at] < v.blobs.len());
    lemma_sizes_natural(len, plan.chunk_size);
    if v.config.split_files_across_blobs {
        let split = split_plan(v, sizes);
        let planned = split.planned;
        lemma_split_plan_shape(v, sizes);
        lemma_planned_is_received(v, sizes, blob);
        lemma_bytes_for_some(sizes, plan.blobs, blob);
        assert(split.vault.blob_size(blob) == v.blob_size(blob));
        assert(exists|i: int| 0 <= i < planned.len() && #[trigger] planned[i] > 0) by {
            assert(planned[blob] > 0);
        }
        lemma_some_planned(planned, blob);
        let last = last_planned(planned)->0;
        let marked = planned.update(
            last,
            (planned[last] + INDEX_FILE_COMPLETE_ENTRY_BYTES) as u64,
        );
        assert(split.vault.completion_refusal(planned) is None);
        assert(split.vault.overfull(marked, 0) is None);
        if none_behind(plan.blobs, blob) {
            assert forall|i: int| blob < i < planned.len() implies #[trigger] planned[i] == 0 by {
                assert(!plan.blobs.contains(i)) by {
                    if plan.blobs.contains(i) {
                        let j = choose|j: int| 0 <= j < plan.blobs.len() && plan.blobs[j] == i;
                        assert(plan.blobs[j] <= blob);
                    }
                }
                lemma_planned_is_received(v, sizes, i);
                lemma_bytes_for_none(sizes, plan.blobs, i);
            }
            lemma_last_planned(planned, blob);
        }
        lemma_not_overfull(split.vault, marked, 0, blob);
    } else {
        let count = sizes.len() as int;
        let bytes = write_size(len, count);
        lemma_chosen_in_range(v, nothing_planned(v.blobs.len()), bytes);
        assert forall|j: int| 0 <= j < plan.blobs.len() implies #[trigger] plan.blobs[j]
            == blob by {}
        lemma_all_to_one(sizes, plan.blobs, blob);
        law_pieces_add_up(len, plan.chunk_size);
    }
}

proof fn lemma_some_planned(planned: Seq<u64>, blob: int)
    requires
        0 <= blob < planned.len(),
        planned[blob] > 0,
    ensures
        last_planned(planned) is Some,
        0 <= last_planned(planned)->0 < planned.len(),
    decreases planned.len(),
{
    if planned.last() == 0 {
        assert(planned.drop_last()[blob] > 0);
        lemma_some_planned(planned.drop_last(), blob);
    }
}

/// Bytes that chunks add to a blob.
pub open spec fn sent_bytes(chunks: Seq<NewChunkView>) -> int
    decreases chunks.len(),
{
    if chunks.len() == 0 {
        0
    } else {
        sent_bytes(chunks.drop_last()) + chunks.last().plaintext.len() + CHUNK_WRITE_OVERHEAD
    }
}

proof fn lemma_sizes_join(a: Seq<LocatedChunk>, b: Seq<LocatedChunk>)
    ensures
        chunks_size(a + b) == chunks_size(a) + chunks_size(b),
    decreases b.len(),
{
    if b.len() == 0 {
        assert(a + b =~= a);
    } else {
        lemma_sizes_join(a, b.drop_last());
        assert((a + b).drop_last() =~= a + b.drop_last());
        assert((a + b).last() == b.last());
    }
}

proof fn lemma_sent_size(id: Seq<u8>, entries: Seq<ChunkView>, chunks: Seq<NewChunkView>)
    requires
        entries.len() == chunks.len(),
        forall|i: int|
            0 <= i < chunks.len() ==> (#[trigger] entries[i]).plaintext_length
                == chunks[i].plaintext.len(),
    ensures
        chunks_size(locate_chunks(id, entries)) == sent_bytes(chunks),
    decreases chunks.len(),
{
    let located = locate_chunks(id, entries);
    if chunks.len() > 0 {
        let front = entries.drop_last();
        assert forall|i: int| 0 <= i < chunks.drop_last().len() implies (
        #[trigger] front[i]).plaintext_length == chunks.drop_last()[i].plaintext.len() by {
            assert(front[i] == entries[i]);
        }
        lemma_sent_size(id, front, chunks.drop_last());
        assert(located.drop_last() =~= locate_chunks(id, front));
        assert(located.last().entry == entries[entries.len() - 1]);
    }
}

/// A delivery adds to the blob that received it what was sent, and nothing to the others.
pub proof fn law_delivery_adds_what_was_sent(
    v: VaultView,
    images: Seq<Seq<u8>>,
    blob: int,
    chunks: Seq<NewChunkView>,
    completes: Seq<CompleteView>,
    now: VaultView,
    now_images: Seq<Seq<u8>>,
    i: int,
)
    requires
        v.consistent(images),
        delivered(v, images, blob, chunks, completes, now, now_images),
        0 <= i < v.blobs.len(),
    ensures
        now.blob_size(i) == v.blob_size(i) + if i == blob {
            sent_bytes(chunks) + completes.len() * INDEX_FILE_COMPLETE_ENTRY_BYTES
        } else {
            0
        },
{
    let b = v.blobs[blob];
    let id = b.blob_id;
    let old = b.entries(images[blob]);
    let tail = data_tail_of(old.chunks);
    let entries = b.entries(now_images[blob]);
    lemma_blob_index_replaced(v.index, id, entries, v.blobs[i].blob_id);
    lemma_size_parts(v, i);
    lemma_size_parts(now, i);
    if i == blob {
        assert(v.knows(blob, images[blob]));
        let sent = entries_at(chunks, tail);
        assert forall|k: int| 0 <= k < chunks.len() implies (#[trigger] sent[k]).plaintext_length
            == chunks[k].plaintext.len() by {
            assert(b.stored_chunk(entries_at(chunks, tail)[k], now_images[blob]) == Ok::<
                Seq<u8>,
                VaultError,
            >(chunks[k].plaintext));
        }
        lemma_received_size(id, old, chunks, completes, sent);
    } else if i < blob {
        assert(v.blobs[i].blob_id != v.blobs[blob].blob_id);
    } else {
        assert(v.blobs[blob].blob_id != v.blobs[i].blob_id);
    }
}

/// What entries take of a blob.
spec fn entries_size(id: Seq<u8>, entries: IndexView) -> int {
    chunks_size(locate_chunks(id, entries.chunks)) + locate_completes(
        id,
        entries.completed_files,
    ).len() * INDEX_FILE_COMPLETE_ENTRY_BYTES
}

proof fn lemma_received_size(
    id: Seq<u8>,
    old: IndexView,
    chunks: Seq<NewChunkView>,
    completes: Seq<CompleteView>,
    sent: Seq<ChunkView>,
)
    requires
        sent.len() == chunks.len(),
        forall|k: int|
            0 <= k < chunks.len() ==> (#[trigger] sent[k]).plaintext_length
                == chunks[k].plaintext.len(),
    ensures
        entries_size(id, old.concat(IndexView { chunks: sent, completed_files: completes }))
            == entries_size(id, old) + sent_bytes(chunks) + completes.len()
            * INDEX_FILE_COMPLETE_ENTRY_BYTES,
{
    let entries = old.concat(IndexView { chunks: sent, completed_files: completes });
    let known = locate_chunks(id, old.chunks);
    let fresh = locate_chunks(id, sent);
    assert(locate_chunks(id, entries.chunks) =~= known + fresh);
    lemma_sizes_join(known, fresh);
    lemma_sent_size(id, sent, chunks);
    assert((old.completed_files.len() + completes.len()) * INDEX_FILE_COMPLETE_ENTRY_BYTES
        == old.completed_files.len() * INDEX_FILE_COMPLETE_ENTRY_BYTES + completes.len()
        * INDEX_FILE_COMPLETE_ENTRY_BYTES) by (nonlinear_arith);
}

proof fn lemma_size_parts(v: VaultView, i: int)
    ensures
        v.blob_size(i) == chunks_size(v.index.blob_chunks(v.blobs[i].blob_id))
            + v.index.blob_completes(v.blobs[i].blob_id).len() * INDEX_FILE_COMPLETE_ENTRY_BYTES,
{
    let n = v.index.blob_completes(v.blobs[i].blob_id).len();
    assert(INDEX_FILE_COMPLETE_ENTRY_BYTES * n == n * INDEX_FILE_COMPLETE_ENTRY_BYTES)
        by (nonlinear_arith);
}

/// Bytes that the parcels add to a blob.
pub open spec fn bytes_to(parcels: Seq<ParcelView>, blob: int) -> int
    decreases parcels.len(),
{
    if parcels.len() == 0 {
        0
    } else {
        bytes_to(parcels.drop_last(), blob) + if parcels.last().blob == blob {
            sent_bytes(parcels.last().chunks) + parcels.last().completed_files.len()
                * INDEX_FILE_COMPLETE_ENTRY_BYTES
        } else {
            0
        }
    }
}

proof fn lemma_bytes_to_front(first: ParcelView, rest: Seq<ParcelView>, blob: int)
    ensures
        bytes_to(seq![first] + rest, blob) == bytes_to(rest, blob) + if first.blob == blob {
            sent_bytes(first.chunks) + first.completed_files.len()
                * INDEX_FILE_COMPLETE_ENTRY_BYTES
        } else {
            0
        },
    decreases rest.len(),
{
    let all = seq![first] + rest;
    if rest.len() == 0 {
        assert(all.drop_last() =~= rest);
        assert(bytes_to(rest, blob) == 0);
    } else {
        lemma_bytes_to_front(first, rest.drop_last(), blob);
        assert(all.drop_last() =~= seq![first] + rest.drop_last());
        assert(all.last() == rest.last());
    }
}

proof fn lemma_nothing_in_front(
    chunks: Seq<NewChunkView>,
    blobs: Seq<int>,
    marker: CompleteView,
    from: int,
    count: int,
    blob: int,
)
    requires
        blob < from,
    ensures
        bytes_to(parcels_from(chunks, blobs, marker, from, count), blob) == 0,
    decreases count - from,
{
    if from < count {
        lemma_nothing_in_front(chunks, blobs, marker, from + 1, count, blob);
        let here = chunks_for(chunks, blobs, from, blobs.len() as int);
        if here.len() > 0 {
            let first = parcels_from(chunks, blobs, marker, from, count)[0];
            lemma_bytes_to_front(
                first,
                parcels_from(chunks, blobs, marker, from + 1, count),
                blob,
            );
        }
    }
}

/// What the parcels of a file bring to a blob is at most what was planned for it.
proof fn lemma_parcels_bring(
    chunks: Seq<NewChunkView>,
    sizes: Seq<int>,
    blobs: Seq<int>,
    marker: CompleteView,
    from: int,
    count: int,
    blob: int,
)
    requires
        0 <= from <= blob < count,
        chunks.len() == blobs.len(),
        sizes.len() == blobs.len(),
        blobs.contains(blob),
        forall|j: int| 0 <= j < blobs.len() ==> 0 <= #[trigger] blobs[j] < count,
        forall|j: int|
            0 <= j < chunks.len() ==> (#[trigger] chunks[j]).plaintext.len() == sizes[j],
    ensures
        bytes_to(parcels_from(chunks, blobs, marker, from, count), blob) == bytes_for(
            sizes,
            blobs,
            blob,
        ) + marker_bytes(blobs, blob),
    decreases count - from,
{
    let n = blobs.len() as int;
    let here = chunks_for(chunks, blobs, from, n);
    let all = parcels_from(chunks, blobs, marker, from, count);
    let rest = parcels_from(chunks, blobs, marker, from + 1, count);
    if from < blob {
        lemma_parcels_bring(chunks, sizes, blobs, marker, from + 1, count, blob);
        if here.len() > 0 {
            lemma_bytes_to_front(all[0], rest, blob);
        }
    } else {
        lemma_nothing_in_front(chunks, blobs, marker, from + 1, count, blob);
        lemma_group_bytes(chunks, sizes, blobs, blob, n);
        assert(sizes.take(n) =~= sizes);
        assert(blobs.take(n) =~= blobs);
        let j = choose|j: int| 0 <= j < blobs.len() && blobs[j] == blob;
        crate::storing::lemma_chunk_goes(chunks, blobs, blob, n, j);
        assert(here.len() > 0);
        lemma_bytes_to_front(all[0], rest, blob);
        if rest.len() == 0 {
            assert forall|k: int| 0 <= k < blobs.len() implies #[trigger] blobs[k] <= blob by {
                if blobs[k] > blob {
                    lemma_parcels_cover(chunks, blobs, marker, from + 1, count, k);
                }
            }
        } else {
            lemma_rest_goes_behind(chunks, blobs, marker, from + 1, count);
        }
    }
}

proof fn lemma_rest_goes_behind(
    chunks: Seq<NewChunkView>,
    blobs: Seq<int>,
    marker: CompleteView,
    from: int,
    count: int,
)
    requires
        parcels_from(chunks, blobs, marker, from, count).len() > 0,
    ensures
        !none_behind(blobs, from - 1),
    decreases count - from,
{
    let n = blobs.len() as int;
    let here = chunks_for(chunks, blobs, from, n);
    if here.len() > 0 {
        lemma_some_goes(chunks, blobs, from, n);
    } else {
        lemma_rest_goes_behind(chunks, blobs, marker, from + 1, count);
        assert(exists|j: int| 0 <= j < blobs.len() && #[trigger] blobs[j] > from);
        let j = choose|j: int| 0 <= j < blobs.len() && #[trigger] blobs[j] > from;
        assert(blobs[j] > from - 1);
    }
}

proof fn lemma_some_goes(chunks: Seq<NewChunkView>, blobs: Seq<int>, blob: int, n: int)
    requires
        0 <= n <= blobs.len(),
        chunks_for(chunks, blobs, blob, n).len() > 0,
    ensures
        !none_behind(blobs, blob - 1),
    decreases n,
{
    if blobs[n - 1] == blob {
        assert(blobs[n - 1] > blob - 1);
    } else {
        lemma_some_goes(chunks, blobs, blob, n - 1);
    }
}

proof fn lemma_group_bytes(
    chunks: Seq<NewChunkView>,
    sizes: Seq<int>,
    blobs: Seq<int>,
    blob: int,
    n: int,
)
    requires
        0 <= n <= blobs.len(),
        chunks.len() == blobs.len(),
        sizes.len() == blobs.len(),
        forall|j: int|
            0 <= j < chunks.len() ==> (#[trigger] chunks[j]).plaintext.len() == sizes[j],
    ensures
        sent_bytes(chunks_for(chunks, blobs, blob, n)) == bytes_for(
            sizes.take(n),
            blobs.take(n),
            blob,
        ),
    decreases n,
{
    if n > 0 {
        lemma_group_bytes(chunks, sizes, blobs, blob, n - 1);
        assert(sizes.take(n).drop_last() =~= sizes.take(n - 1));
        assert(blobs.take(n).drop_last() =~= blobs.take(n - 1));
        assert(sizes.take(n).last() == sizes[n - 1]);
        assert(blobs.take(n).last() == blobs[n - 1]);
        assert(chunks[n - 1].plaintext.len() == sizes[n - 1]);
        let before = chunks_for(chunks, blobs, blob, n - 1);
        assert(before.push(chunks[n - 1]).drop_last() =~= before);
    }
}

proof fn lemma_parcels_add(
    parcels: Seq<ParcelView>,
    vaults: Seq<VaultView>,
    images: Seq<Seq<Seq<u8>>>,
    k: int,
    blob: int,
)
    requires
        all_delivered(parcels, vaults, images),
        vaults[0].consistent(images[0]),
        0 <= k <= parcels.len(),
        0 <= blob < vaults[0].blobs.len(),
    ensures
        vaults[k].consistent(images[k]),
        vaults[k].blobs == vaults[0].blobs,
        vaults[k].config == vaults[0].config,
        vaults[k].blob_size(blob) == vaults[0].blob_size(blob) + bytes_to(parcels.take(k), blob),
    decreases k,
{
    if k == 0 {
        assert(bytes_to(parcels.take(0), blob) == 0);
    } else {
        lemma_parcels_add(parcels, vaults, images, k - 1, blob);
        let parcel = parcels[k - 1];
        assert(delivered(
            vaults[k - 1],
            images[k - 1],
            parcel.blob,
            parcel.chunks,
            parcel.completed_files,
            vaults[k],
            images[k],
        ));
        law_delivery_keeps_consistency(
            vaults[k - 1],
            images[k - 1],
            parcel.blob,
            parcel.chunks,
            parcel.completed_files,
            vaults[k],
            images[k],
        );
        law_delivery_adds_what_was_sent(
            vaults[k - 1],
            images[k - 1],
            parcel.blob,
            parcel.chunks,
            parcel.completed_files,
            vaults[k],
            images[k],
            blob,
        );
        assert(parcels.take(k).drop_last() =~= parcels.take(k - 1));
        assert(parcels.take(k).last() == parcel);
    }
}

/// A file that was planned and stored leaves every blob that received a part of it within the
/// configured size.
pub proof fn law_blobs_keep_to_the_limit(
    v: VaultView,
    file_id: Seq<u8>,
    contents: Seq<u8>,
    plan: FilePlan,
    vaults: Seq<VaultView>,
    images: Seq<Seq<Seq<u8>>>,
    blob: int,
)
    requires
        v.valid(),
        v.file_plan(contents.len() as int).0 == Ok::<FilePlan, VaultError>(plan),
        vaults.len() > 0,
        vaults[0] == v.file_plan(contents.len() as int).1,
        vaults[0].consistent(images[0]),
        all_delivered(v.parcels(file_id, contents, plan), vaults, images),
        plan.blobs.contains(blob),
    ensures
        vaults.last().blob_size(blob) <= v.config.max_blob_size,
{
    let len = contents.len() as int;
    let n = plan.blobs.len() as int;
    let count = v.blobs.len() as int;
    let size = plan.chunk_size;
    let sizes = piece_sizes(len, size);
    let chunks = chunks_of(file_id, contents, size);
    let marker = marker_of(file_id, contents, n);
    let parcels = v.parcels(file_id, contents, plan);
    let k = parcels.len() as int;
    lemma_plan_shape(v, contents, plan);
    lemma_piece_lengths(contents, size);
    law_plan_keeps_to_the_limit(v, len, plan, blob);
    if v.config.split_files_across_blobs {
        lemma_split_plan_shape(v, sizes);
    }
    assert(vaults[0].blobs == v.blobs && vaults[0].index == v.index);
    assert(vaults[0].blob_size(blob) == v.blob_size(blob));
    let at = choose|j: int| 0 <= j < plan.blobs.len() && plan.blobs[j] == blob;
    assert(0 <= plan.blobs[at] < v.blobs.len());
    assert forall|j: int| 0 <= j < chunks.len() implies (#[trigger] chunks[j]).plaintext.len()
        == sizes[j] by {
        assert(pieces_of(contents, size)[j].len() == sizes[j]);
    }
    lemma_parcels_bring(chunks, sizes, plan.blobs, marker, 0, count, blob);
    lemma_parcels_add(parcels, vaults, images, k, blob);
    assert(parcels.take(k) =~= parcels);
}

/// What a file adds to the index of a blob that receives all of it is what the estimate says. An
/// empty file is the exception: it is stored as one empty chunk, which the estimate leaves out.
pub proof fn law_index_estimate_is_exact(
    file_id: Seq<u8>,
    contents: Seq<u8>,
    size: int,
    marker: CompleteView,
    tail: int,
)
    requires
        contents.len() > 0,
        0 < size,
        file_id.len() == 16,
        marker.sized(),
        forall|j: int|
            0 <= j < pieces_of(contents, size).len() ==> (#[trigger] entries_at(
                chunks_of(file_id, contents, size),
                tail,
            )[j]).sized(),
    ensures
        transaction_bytes(
            added_entries(chunks_of(file_id, contents, size), seq![marker], tail),
        ).len() == chunks_needed(contents.len() as int, size) * INDEX_CHUNK_ENTRY_BYTES
            + INDEX_FILE_COMPLETE_ENTRY_BYTES,
{
    let added = added_entries(chunks_of(file_id, contents, size), seq![marker], tail);
    lemma_piece_lengths(contents, size);
    law_piece_count(contents.len() as int, size);
    assert forall|i: int| 0 <= i < added.chunks.len() implies (
    #[trigger] added.chunks[i]).sized() by {
        assert(added.chunks[i] == entries_at(chunks_of(file_id, contents, size), tail)[i]);
    }
    law_transaction_decodes(added);
}

/// No blob has room: each is too full, and none overflows.
proof fn lemma_no_room(v: VaultView, planned: Seq<u64>, bytes: int, k: int, m: int)
    requires
        0 <= k <= m < v.blobs.len(),
        v.first_with_room(planned, bytes, k) == Err::<int, VaultError>(VaultError::NoWritableBlob),
    ensures
        ({
            let i = (v.scan_start() + m) % v.blobs.len() as int;
            v.config.max_blob_size < v.blob_size(i) + planned[i] + bytes <= u64::MAX
        }),
    decreases m - k,
{
    if k < m {
        lemma_no_room(v, planned, bytes, k + 1, m);
    }
}

/// Where no blob overflows and one of those that are still to be asked has room, one is found.
proof fn lemma_room_is_found(v: VaultView, planned: Seq<u64>, bytes: int, k: int, m: int)
    requires
        0 <= k <= m < v.blobs.len(),
        forall|i: int|
            0 <= i < v.blobs.len() ==> #[trigger] v.blob_size(i) + planned[i] + bytes <= u64::MAX,
        ({
            let i = (v.scan_start() + m) % v.blobs.len() as int;
            v.blob_size(i) + planned[i] + bytes <= v.config.max_blob_size
        }),
    ensures
        v.first_with_room(planned, bytes, k) is Ok,
    decreases m - k,
{
    let i = (v.scan_start() + k) % v.blobs.len() as int;
    vstd::arithmetic::div_mod::lemma_mod_bound(v.scan_start() + k, v.blobs.len() as int);
    assert(v.blob_size(i) + planned[i] + bytes <= u64::MAX);
    if k < m {
        if v.blob_size(i) + planned[i] + bytes > v.config.max_blob_size {
            lemma_room_is_found(v, planned, bytes, k + 1, m);
        }
    }
}

/// Every blob is asked at some point.
proof fn lemma_all_are_asked(start: int, count: int, i: int) -> (m: int)
    requires
        0 <= start < count,
        0 <= i < count,
    ensures
        0 <= m < count,
        (start + m) % count == i,
{
    if i >= start {
        vstd::arithmetic::div_mod::lemma_small_mod(i as nat, count as nat);
        i - start
    } else {
        vstd::arithmetic::div_mod::lemma_mod_add_multiples_vanish(i, count);
        vstd::arithmetic::div_mod::lemma_small_mod(i as nat, count as nat);
        i + count - start
    }
}

/// Where a file is kept whole and no blob has room for it, it has room once a blob is attached of
/// which nothing is known. A file that is split may be refused all the same: its completion marker
/// goes to the last blob with a piece of it, which may be full.
pub proof fn law_new_blob_has_room(v: VaultView, b: BlobView, len: int)
    requires
        v.valid(),
        !v.config.split_files_across_blobs,
        v.file_plan(len).0 == Err::<FilePlan, VaultError>(VaultError::NoWritableBlob),
        estimated_size(v.index, b.blob_id) == 0,
    ensures
        (VaultView { blobs: v.blobs.push(b), ..v }).file_plan(len).0 is Ok,
{
    let w = VaultView { blobs: v.blobs.push(b), ..v };
    let n = v.blobs.len() as int;
    let count = piece_sizes(len, v.config.max_chunk_size as int).len();
    let bytes = write_size(len, count as int);
    let before = nothing_planned(v.blobs.len());
    let planned = nothing_planned(w.blobs.len());
    vstd::arithmetic::div_mod::lemma_mod_bound(v.cursor as int, n);
    vstd::arithmetic::div_mod::lemma_mod_bound(w.cursor as int, n + 1);
    assert forall|i: int| 0 <= i < w.blobs.len() implies #[trigger] w.blob_size(i) + planned[i]
        + bytes <= u64::MAX by {
        if i < n {
            let m = lemma_all_are_asked(v.scan_start(), n, i);
            lemma_no_room(v, before, bytes, 0, m);
            assert(w.blob_size(i) == v.blob_size(i));
        }
    }
    let m = lemma_all_are_asked(w.scan_start(), n + 1, n);
    lemma_room_is_found(w, planned, bytes, 0, m);
}

} // verus!
