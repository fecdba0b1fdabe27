//! What the layout of a blob says, number by number.

use vstd::prelude::*;

use crate::accounting::{law_blob_lives_orderly, law_index_is_its_entries};
use crate::blob::{chunk_end, data_tail_of, BlobView, LocatorView};
use crate::consistency::{index_bytes, lemma_data_tail_covers, lemma_tail_in_front_of_index};
use crate::index::IndexView;
use crate::order::{insert_position, law_order_is_stable, order_of, order_of_first, precedes};
use crate::read::layout_in;
use crate::stats::{
    by_offset, end_of_run, first_gap, frame_sum, gap_sum, law_packed_file_is_accounted_for,
    offsets_of, plaintext_sum, stats_fit, stats_of, BlobLayoutStats,
};
use crate::types::ChunkView;

verus! {

/// Plaintext bytes of the chunks.
pub open spec fn plaintext_in(chunks: Seq<ChunkView>) -> int
    decreases chunks.len(),
{
    if chunks.len() == 0 {
        0
    } else {
        chunks[0].plaintext_length + plaintext_in(chunks.skip(1))
    }
}

proof fn lemma_plaintext_in(chunks: Seq<ChunkView>)
    ensures
        plaintext_in(chunks) == plaintext_sum(chunks),
        plaintext_in(chunks) >= 0,
        chunks.len() > 0 ==> plaintext_in(chunks) == plaintext_in(chunks.drop_last())
            + chunks.last().plaintext_length,
    decreases chunks.len(),
{
    if chunks.len() > 0 {
        let rest = chunks.skip(1);
        lemma_plaintext_in(rest);
        if chunks.len() == 1 {
            assert(chunks.drop_last() =~= Seq::empty());
            assert(rest =~= Seq::empty());
        } else {
            assert(rest.drop_last() =~= chunks.drop_last().skip(1));
            assert(rest.last() == chunks.last());
            assert(chunks.drop_last()[0] == chunks[0]);
        }
        lemma_plaintext_in(chunks.drop_last());
    }
}

/// The data end behind the chunk that ends last, and behind the front matter where there is none.
pub proof fn law_data_end_behind_the_last_chunk(chunks: Seq<ChunkView>)
    ensures
        data_tail_of(chunks) >= 4096,
        forall|i: int|
            0 <= i < chunks.len() ==> (#[trigger] chunks[i]).offset_in_blob
                + chunks[i].plaintext_length + 40 <= data_tail_of(chunks),
        data_tail_of(chunks) == 4096 || exists|i: int|
            0 <= i < chunks.len() && (#[trigger] chunks[i]).offset_in_blob
                + chunks[i].plaintext_length + 40 == data_tail_of(chunks),
    decreases chunks.len(),
{
    if chunks.len() > 0 {
        let front = chunks.drop_last();
        let last = chunks.len() - 1;
        law_data_end_behind_the_last_chunk(front);
        assert forall|i: int| 0 <= i < chunks.len() implies (#[trigger] chunks[i]).offset_in_blob
            + chunks[i].plaintext_length + 40 <= data_tail_of(chunks) by {
            lemma_data_tail_covers(chunks, i);
        }
        if data_tail_of(chunks) == data_tail_of(front) {
            if data_tail_of(front) != 4096 {
                let i = choose|i: int|
                    0 <= i < front.len() && (#[trigger] front[i]).offset_in_blob
                        + front[i].plaintext_length + 40 == data_tail_of(front);
                assert(chunks[i] == front[i]);
            }
        } else {
            assert(chunks[last].offset_in_blob + chunks[last].plaintext_length + 40
                == data_tail_of(chunks));
        }
    }
}

/// What the layout of a file says whose index lists these entries: every number is that of the
/// file, of the locator in force or of the entries.
pub open spec fn tells(
    stats: BlobLayoutStats,
    locator: LocatorView,
    index: IndexView,
    file_size: int,
) -> bool {
    let frames = plaintext_in(index.chunks) + 40 * index.chunks.len();
    let tail = data_tail_of(index.chunks);
    let index_end = locator.index_offset + locator.index_length;
    &&& stats.file_size == file_size
    &&& stats.front_matter_bytes == 4096
    &&& stats.body_bytes == file_size - 4096
    &&& stats.locator_generation == locator.generation
    &&& stats.chunk_count == index.chunks.len()
    &&& stats.file_complete_count == index.completed_files.len()
    &&& stats.chunk_plaintext_bytes == plaintext_in(index.chunks)
    &&& stats.chunk_frame_bytes == frames
    &&& stats.chunk_frame_overhead_bytes == 40 * index.chunks.len()
    &&& stats.data_tail == tail
    &&& stats.leading_gap_bytes == locator.index_offset - tail
    &&& stats.index_offset == locator.index_offset
    &&& stats.index_length == locator.index_length
    &&& stats.index_ciphertext_bytes == locator.index_length
    &&& stats.trailing_gap_bytes == file_size - index_end
}

/// The layout of a file whose data end in front of its index, and whose index ends inside the file,
/// says what is there.
pub proof fn law_layout_says_what_is_there(
    locator: LocatorView,
    index: IndexView,
    plaintext_len: int,
    file_size: int,
)
    requires
        stats_fit(locator, index, file_size),
        4096 <= file_size <= u64::MAX,
        data_tail_of(index.chunks) <= locator.index_offset,
        locator.index_offset + locator.index_length <= file_size,
        index.chunks.len() <= usize::MAX,
        index.completed_files.len() <= usize::MAX,
        0 <= plaintext_len <= u64::MAX,
    ensures
        tells(stats_of(locator, index, plaintext_len, file_size), locator, index, file_size),
        stats_of(locator, index, plaintext_len, file_size).index_entry_plaintext_bytes
            == plaintext_len,
{
    lemma_plaintext_in(index.chunks);
    law_data_end_behind_the_last_chunk(index.chunks);
    lemma_sums_natural(by_offset(index.chunks));
}

proof fn lemma_sums_natural(chunks: Seq<ChunkView>)
    ensures
        gap_sum(chunks) >= 0,
        first_gap(chunks) >= 0,
    decreases chunks.len(),
{
    if chunks.len() > 0 {
        lemma_sums_natural(chunks.drop_last());
    }
}

/// What the layout of any file says of the parts around the index: a gap is what lies between its
/// two ends, and nothing where these overlap.
pub proof fn law_gap_is_nothing_where_parts_overlap(
    locator: LocatorView,
    index: IndexView,
    plaintext_len: int,
    file_size: int,
)
    requires
        stats_fit(locator, index, file_size),
        0 <= file_size <= u64::MAX,
    ensures
        ({
            let stats = stats_of(locator, index, plaintext_len, file_size);
            let tail = data_tail_of(index.chunks);
            let index_end = locator.index_offset + locator.index_length;
            &&& stats.leading_gap_bytes == 0 || tail + stats.leading_gap_bytes
                == locator.index_offset
            &&& stats.leading_gap_bytes == 0 ==> tail >= locator.index_offset
            &&& stats.trailing_gap_bytes == 0 || index_end + stats.trailing_gap_bytes == file_size
            &&& stats.trailing_gap_bytes == 0 ==> index_end >= file_size
            &&& stats.body_bytes == 0 || 4096 + stats.body_bytes == file_size
            &&& stats.body_bytes == 0 ==> file_size <= 4096
            &&& stats.locator_generation == locator.generation
            &&& stats.index_offset == locator.index_offset
            &&& stats.index_length == locator.index_length
        }),
{
    lemma_tail_natural(index.chunks);
}

proof fn lemma_tail_natural(chunks: Seq<ChunkView>)
    ensures
        data_tail_of(chunks) >= 0,
    decreases chunks.len(),
{
    if chunks.len() > 0 {
        lemma_tail_natural(chunks.drop_last());
    }
}

/// Measuring a blob that was created and then written to says, at every time, what is there: the
/// length of the file, what the locator in force says, what the entries add up to, and the gaps on
/// the two sides of the index, each on its side. There are no other gaps, and nothing is left over.
pub proof fn law_lived_blob_is_measured(b: BlobView, images: Seq<Seq<u8>>, k: int)
    requires
        b.lived(images),
        0 <= k < images.len(),
        b.active(images[k]).index_length <= usize::MAX,
        b.entries(images[k]).chunks.len() <= usize::MAX,
        b.entries(images[k]).completed_files.len() <= usize::MAX,
    ensures
        layout_in(b, images[k]) matches Some(Ok(stats)) && tells(
            stats,
            b.active(images[k]),
            b.entries(images[k]),
            images[k].len() as int,
        ) && stats.gap_before_first_chunk_bytes == 0 && stats.inter_chunk_gap_bytes == 0
            && stats.body_unclassified_bytes == 0 && stats.index_entry_plaintext_bytes
            == b.active(images[k]).index_length && stats.index_length == 73
            * b.entries(images[k]).chunks.len() + 57
            * b.entries(images[k]).completed_files.len(),
{
    let image = images[k];
    let locator = b.active(image);
    let index = b.entries(image);
    let plaintext = b.stored(image)->Ok_0.1;
    law_blob_lives_orderly(b, images, k);
    if locator.index_length == 0 {
        assert(index_bytes(locator, image) =~= Seq::empty());
    }
    law_index_is_its_entries(plaintext);
    lemma_tail_in_front_of_index(b, image);
    law_packed_file_is_accounted_for(
        locator,
        index,
        plaintext.len() as int,
        image.len() as int,
    );
    law_layout_says_what_is_there(locator, index, plaintext.len() as int, image.len() as int);
}

/// The chunks lie behind the front matter, and no two share a byte.
pub open spec fn apart(chunks: Seq<ChunkView>) -> bool {
    &&& forall|i: int| 0 <= i < chunks.len() ==> (#[trigger] chunks[i]).offset_in_blob >= 4096
    &&& forall|i: int, j: int|
        0 <= i < chunks.len() && 0 <= j < chunks.len() && i != j ==> ends_before(
            #[trigger] chunks[i],
            #[trigger] chunks[j],
        ) || ends_before(chunks[j], chunks[i])
}

/// The one chunk ends before the other begins.
pub open spec fn ends_before(a: ChunkView, b: ChunkView) -> bool {
    a.offset_in_blob + a.plaintext_length + 40 <= b.offset_in_blob
}

/// Plaintext bytes of the chunks at these positions.
spec fn plaintext_at(chunks: Seq<ChunkView>, order: Seq<int>) -> int
    decreases order.len(),
{
    if order.len() == 0 {
        0
    } else {
        plaintext_at(chunks, order.drop_last()) + chunks[order.last()].plaintext_length
    }
}

proof fn lemma_inserting_adds(chunks: Seq<ChunkView>, keys: Seq<u64>, order: Seq<int>, x: int)
    ensures
        plaintext_at(chunks, insert_position(keys, order, x)) == plaintext_at(chunks, order)
            + chunks[x].plaintext_length,
    decreases order.len(),
{
    let now = insert_position(keys, order, x);
    if order.len() == 0 || keys[order.last()] <= keys[x] {
        assert(now.drop_last() =~= order);
    } else {
        lemma_inserting_adds(chunks, keys, order.drop_last(), x);
        assert(now.drop_last() =~= insert_position(keys, order.drop_last(), x));
    }
}

proof fn lemma_order_keeps_sum(chunks: Seq<ChunkView>, keys: Seq<u64>, n: nat)
    requires
        n <= chunks.len(),
    ensures
        plaintext_at(chunks, order_of_first(keys, n)) == plaintext_sum(chunks.take(n as int)),
    decreases n,
{
    if n > 0 {
        lemma_order_keeps_sum(chunks, keys, (n - 1) as nat);
        lemma_inserting_adds(chunks, keys, order_of_first(keys, (n - 1) as nat), n - 1);
        assert(chunks.take(n as int).drop_last() =~= chunks.take(n - 1));
    }
}

proof fn lemma_picked_sum(chunks: Seq<ChunkView>, order: Seq<int>, picked: Seq<ChunkView>)
    requires
        picked.len() == order.len(),
        forall|i: int| 0 <= i < order.len() ==> #[trigger] picked[i] == chunks[order[i]],
    ensures
        plaintext_sum(picked) == plaintext_at(chunks, order),
    decreases order.len(),
{
    if order.len() > 0 {
        assert forall|i: int| 0 <= i < order.drop_last().len() implies #[trigger] picked.drop_last()[i]
            == chunks[order.drop_last()[i]] by {
            assert(picked[i] == chunks[order[i]]);
        }
        lemma_picked_sum(chunks, order.drop_last(), picked.drop_last());
        assert(picked[order.len() - 1] == chunks[order[order.len() - 1]]);
    }
}

proof fn lemma_run_fills(sorted: Seq<ChunkView>)
    requires
        forall|i: int| 0 <= i < sorted.len() ==> (#[trigger] sorted[i]).offset_in_blob >= 4096,
        forall|i: int, j: int|
            0 <= i < j < sorted.len() ==> ends_before(#[trigger] sorted[i], #[trigger] sorted[j]),
    ensures
        end_of_run(sorted) == 4096 + frame_sum(sorted) + gap_sum(sorted),
        data_tail_of(sorted) == end_of_run(sorted),
    decreases sorted.len(),
{
    if sorted.len() > 0 {
        let front = sorted.drop_last();
        let last = sorted.len() - 1;
        assert forall|i: int| 0 <= i < front.len() implies (#[trigger] front[i]).offset_in_blob
            >= 4096 by {
            assert(sorted[i].offset_in_blob >= 4096);
        }
        assert forall|i: int, j: int| 0 <= i < j < front.len() implies ends_before(
            #[trigger] front[i],
            #[trigger] front[j],
        ) by {
            assert(ends_before(sorted[i], sorted[j]));
        }
        lemma_run_fills(front);
        assert(sorted[last].offset_in_blob >= 4096);
        if front.len() > 0 {
            assert(ends_before(sorted[last - 1], sorted[last]));
        }
    }
}

/// Where chunks lie apart, however they are listed, gaps and frames together make up the data: the
/// gaps are exactly the bytes in front of the end of the data that no chunk takes. The gap in front
/// of the first chunk ends where the first chunk begins.
pub proof fn law_gaps_are_what_chunks_leave(
    locator: LocatorView,
    index: IndexView,
    plaintext_len: int,
    file_size: int,
)
    requires
        apart(index.chunks),
        stats_fit(locator, index, file_size),
    ensures
        ({
            let stats = stats_of(locator, index, plaintext_len, file_size);
            let chunks = index.chunks;
            &&& stats.inter_chunk_gap_bytes + plaintext_in(chunks) + 40 * chunks.len()
                == data_tail_of(chunks) - 4096
            &&& chunks.len() == 0 ==> stats.gap_before_first_chunk_bytes == 0
            &&& forall|i: int|
                0 <= i < chunks.len() ==> stats.gap_before_first_chunk_bytes + 4096 <= (
                #[trigger] chunks[i]).offset_in_blob
            &&& chunks.len() > 0 ==> exists|i: int|
                0 <= i < chunks.len() && stats.gap_before_first_chunk_bytes + 4096 == (
                #[trigger] chunks[i]).offset_in_blob
        }),
{
    let chunks = index.chunks;
    let keys = offsets_of(chunks);
    let order = order_of(keys);
    let sorted = by_offset(chunks);
    law_order_is_stable(keys);
    lemma_plaintext_in(chunks);
    lemma_order_keeps_sum(chunks, keys, chunks.len());
    assert(chunks.take(chunks.len() as int) =~= chunks);
    lemma_picked_sum(chunks, order, sorted);
    assert forall|i: int| 0 <= i < sorted.len() implies (#[trigger] sorted[i]).offset_in_blob
        >= 4096 by {
        assert(chunks[order[i]].offset_in_blob >= 4096);
    }
    assert forall|i: int, j: int| 0 <= i < j < sorted.len() implies ends_before(
        #[trigger] sorted[i],
        #[trigger] sorted[j],
    ) by {
        assert(precedes(keys, order[i], order[j]));
        assert(order[i] != order[j]);
        assert(ends_before(chunks[order[i]], chunks[order[j]]) || ends_before(
            chunks[order[j]],
            chunks[order[i]],
        ));
        assert(keys[order[i]] == chunks[order[i]].offset_in_blob);
        assert(keys[order[j]] == chunks[order[j]].offset_in_blob);
    }
    lemma_run_fills(sorted);
    lemma_sums_natural(sorted);
    law_data_end_behind_the_last_chunk(chunks);
    law_data_end_behind_the_last_chunk(sorted);
    assert(data_tail_of(chunks) == data_tail_of(sorted)) by {
        if data_tail_of(chunks) != 4096 {
            let i = choose|i: int|
                0 <= i < chunks.len() && (#[trigger] chunks[i]).offset_in_blob
                    + chunks[i].plaintext_length + 40 == data_tail_of(chunks);
            assert(order.contains(i));
            let j = choose|j: int| 0 <= j < order.len() && order[j] == i;
            assert(sorted[j] == chunks[i]);
        }
        if data_tail_of(sorted) != 4096 {
            let j = choose|j: int|
                0 <= j < sorted.len() && (#[trigger] sorted[j]).offset_in_blob
                    + sorted[j].plaintext_length + 40 == data_tail_of(sorted);
            assert(sorted[j] == chunks[order[j]]);
        }
    }
    if data_tail_of(chunks) != 4096 {
        let i = choose|i: int|
            0 <= i < chunks.len() && (#[trigger] chunks[i]).offset_in_blob
                + chunks[i].plaintext_length + 40 == data_tail_of(chunks);
        assert(chunk_end(chunks[i]) <= u64::MAX);
    }
    if chunks.len() > 0 {
        assert(sorted[0] == chunks[order[0]]);
        assert forall|i: int| 0 <= i < chunks.len() implies sorted[0].offset_in_blob <= (
        #[trigger] chunks[i]).offset_in_blob by {
            assert(order.contains(i));
            let j = choose|j: int| 0 <= j < order.len() && order[j] == i;
            if j > 0 {
                assert(precedes(keys, order[0], order[j]));
                assert(keys[order[0]] == chunks[order[0]].offset_in_blob);
                assert(keys[order[j]] == chunks[order[j]].offset_in_blob);
            }
        }
    }
}

} // verus!
