//! Where the bytes of a blob file go.

use vstd::prelude::*;
use vstd::string::StringExecFns;

use crate::blob::{
    chunk_end, chunk_ends_fit, data_tail, data_tail_of, Locator, LocatorView, AEAD_FRAME_OVERHEAD,
    FRONT_MATTER_LEN,
};
use crate::bytes::checked_add;
use crate::commit::{entries_at, frames_len, lemma_frames_len_grows, prepare_refusal};
use crate::consistency::{lemma_data_tail_covers, lemma_fitting_chunk};
use crate::error::VaultError;
use crate::index::{BlobIndex, IndexView, NewChunkView};
use crate::order::{law_order_is_stable, order_of, order_of_first, positions, stable_order};
use crate::text::{append_decimal, decimal};
use crate::types::{chunk_views, ChunkEntry, ChunkView};

verus! {

/// Physical layout breakdown for one blob file (debugging / capacity planning).
#[derive(Clone, Copy, Debug)]
pub struct BlobLayoutStats {
    pub file_size: u64,
    pub front_matter_bytes: u64,
    pub body_bytes: u64,
    pub locator_generation: u64,
    pub chunk_count: usize,
    pub file_complete_count: usize,
    pub chunk_plaintext_bytes: u64,
    pub chunk_frame_bytes: u64,
    pub chunk_frame_overhead_bytes: u64,
    pub gap_before_first_chunk_bytes: u64,
    pub inter_chunk_gap_bytes: u64,
    pub data_tail: u64,
    pub leading_gap_bytes: u64,
    pub index_offset: u64,
    pub index_length: u64,
    pub index_ciphertext_bytes: u64,
    pub index_entry_plaintext_bytes: u64,
    pub trailing_gap_bytes: u64,
    pub body_unclassified_bytes: u64,
}

impl Default for BlobLayoutStats {
    fn default() -> (r: BlobLayoutStats)
        ensures
            r == (BlobLayoutStats {
                file_size: 0,
                front_matter_bytes: 0,
                body_bytes: 0,
                locator_generation: 0,
                chunk_count: 0,
                file_complete_count: 0,
                chunk_plaintext_bytes: 0,
                chunk_frame_bytes: 0,
                chunk_frame_overhead_bytes: 0,
                gap_before_first_chunk_bytes: 0,
                inter_chunk_gap_bytes: 0,
                data_tail: 0,
                leading_gap_bytes: 0,
                index_offset: 0,
                index_length: 0,
                index_ciphertext_bytes: 0,
                index_entry_plaintext_bytes: 0,
                trailing_gap_bytes: 0,
                body_unclassified_bytes: 0,
            }),
    {
        BlobLayoutStats {
            file_size: 0,
            front_matter_bytes: 0,
            body_bytes: 0,
            locator_generation: 0,
            chunk_count: 0,
            file_complete_count: 0,
            chunk_plaintext_bytes: 0,
            chunk_frame_bytes: 0,
            chunk_frame_overhead_bytes: 0,
            gap_before_first_chunk_bytes: 0,
            inter_chunk_gap_bytes: 0,
            data_tail: 0,
            leading_gap_bytes: 0,
            index_offset: 0,
            index_length: 0,
            index_ciphertext_bytes: 0,
            index_entry_plaintext_bytes: 0,
            trailing_gap_bytes: 0,
            body_unclassified_bytes: 0,
        }
    }
}

/// Plaintext bytes of the chunks.
pub open spec fn plaintext_sum(chunks: Seq<ChunkView>) -> int
    decreases chunks.len(),
{
    if chunks.len() == 0 {
        0
    } else {
        plaintext_sum(chunks.drop_last()) + chunks.last().plaintext_length
    }
}

/// Frame bytes of the chunks.
pub open spec fn frame_sum(chunks: Seq<ChunkView>) -> int {
    plaintext_sum(chunks) + AEAD_FRAME_OVERHEAD * chunks.len()
}

/// The offsets of the chunks.
pub open spec fn offsets_of(chunks: Seq<ChunkView>) -> Seq<u64> {
    Seq::new(chunks.len(), |i: int| chunks[i].offset_in_blob)
}

/// The chunks in the order in which they stand in the file.
pub open spec fn by_offset(chunks: Seq<ChunkView>) -> Seq<ChunkView> {
    Seq::new(order_of(offsets_of(chunks)).len(), |i: int| chunks[order_of(offsets_of(chunks))[i]])
}

/// The byte behind the last of the chunks, taken in the given order.
pub open spec fn end_of_run(chunks: Seq<ChunkView>) -> int {
    if chunks.len() == 0 {
        FRONT_MATTER_LEN as int
    } else {
        chunk_end(chunks.last())
    }
}

/// Bytes between one chunk and the next, and between the front matter and the first.
pub open spec fn gap_sum(chunks: Seq<ChunkView>) -> int
    decreases chunks.len(),
{
    if chunks.len() == 0 {
        0
    } else {
        gap_sum(chunks.drop_last()) + excess(
            chunks.last().offset_in_blob as int,
            end_of_run(chunks.drop_last()),
        )
    }
}

/// By how much `a` is greater than `b`.
pub open spec fn excess(a: int, b: int) -> int {
    if a > b {
        a - b
    } else {
        0
    }
}

/// Bytes between the front matter and the first chunk.
pub open spec fn first_gap(sorted: Seq<ChunkView>) -> int {
    if sorted.len() == 0 {
        0
    } else {
        excess(sorted[0].offset_in_blob as int, FRONT_MATTER_LEN as int)
    }
}

/// Bytes of the body that have a known use.
pub open spec fn classified_bytes(locator: LocatorView, index: IndexView, file_size: int) -> int {
    let sorted = by_offset(index.chunks);
    frame_sum(index.chunks) + first_gap(sorted) + gap_sum(sorted) + excess(
        locator.index_offset as int,
        data_tail_of(index.chunks),
    ) + locator.index_length + excess(
        file_size,
        locator.index_offset + locator.index_length,
    )
}

/// Every sum of the breakdown fits.
pub open spec fn stats_fit(locator: LocatorView, index: IndexView, file_size: int) -> bool {
    &&& chunk_ends_fit(index.chunks)
    &&& locator.index_offset + locator.index_length <= u64::MAX
    &&& classified_bytes(locator, index, file_size) <= u64::MAX
}

/// The breakdown of a file.
pub open spec fn stats_of(
    locator: LocatorView,
    index: IndexView,
    plaintext_len: int,
    file_size: int,
) -> BlobLayoutStats {
    let sorted = by_offset(index.chunks);
    let body = excess(file_size, FRONT_MATTER_LEN as int);
    BlobLayoutStats {
        file_size: file_size as u64,
        front_matter_bytes: FRONT_MATTER_LEN,
        body_bytes: body as u64,
        locator_generation: locator.generation,
        chunk_count: index.chunks.len() as usize,
        file_complete_count: index.completed_files.len() as usize,
        chunk_plaintext_bytes: plaintext_sum(index.chunks) as u64,
        chunk_frame_bytes: frame_sum(index.chunks) as u64,
        chunk_frame_overhead_bytes: (AEAD_FRAME_OVERHEAD * index.chunks.len()) as u64,
        gap_before_first_chunk_bytes: first_gap(sorted) as u64,
        inter_chunk_gap_bytes: gap_sum(sorted) as u64,
        data_tail: data_tail_of(index.chunks) as u64,
        leading_gap_bytes: excess(
            locator.index_offset as int,
            data_tail_of(index.chunks),
        ) as u64,
        index_offset: locator.index_offset,
        index_length: locator.index_length,
        index_ciphertext_bytes: locator.index_length,
        index_entry_plaintext_bytes: plaintext_len as u64,
        trailing_gap_bytes: excess(
            file_size,
            locator.index_offset + locator.index_length,
        ) as u64,
        body_unclassified_bytes: excess(
            body,
            classified_bytes(locator, index, file_size),
        ) as u64,
    }
}

/// The offsets of the chunks.
fn chunk_offsets(chunks: &Vec<ChunkEntry>) -> (r: Vec<u64>)
    ensures
        r@ == offsets_of(chunk_views(chunks@)),
{
    let mut offsets: Vec<u64> = Vec::with_capacity(chunks.len());
    let mut i: usize = 0;
    while i < chunks.len()
        invariant
            i <= chunks@.len(),
            offsets@.len() == i,
            forall|j: int| 0 <= j < i ==> offsets@[j] == chunks@[j].offset_in_blob,
        decreases chunks@.len() - i,
    {
        offsets.push(chunks[i].offset_in_blob);
        i += 1;
    }
    assert(offsets@ =~= offsets_of(chunk_views(chunks@)));
    offsets
}

proof fn lemma_sums_grow(chunks: Seq<ChunkView>, i: int)
    requires
        0 <= i <= chunks.len(),
    ensures
        0 <= plaintext_sum(chunks.take(i)) <= plaintext_sum(chunks),
        0 <= gap_sum(chunks.take(i)) <= gap_sum(chunks),
    decreases chunks.len(),
{
    if chunks.len() == 0 {
        assert(chunks.take(i) =~= chunks);
    } else if i == chunks.len() {
        assert(chunks.take(i) =~= chunks);
        lemma_sums_grow(chunks.drop_last(), chunks.len() - 1);
        assert(chunks.drop_last().take(chunks.len() - 1) =~= chunks.drop_last());
    } else {
        lemma_sums_grow(chunks.drop_last(), i);
        assert(chunks.drop_last().take(i) =~= chunks.take(i));
    }
}

/// Plaintext and frame bytes of the chunks.
fn sum_chunks(chunks: &Vec<ChunkEntry>) -> (r: Result<(u64, u64), VaultError>)
    ensures
        ({
            let views = chunk_views(chunks@);
            if frame_sum(views) <= u64::MAX {
                r == Ok::<(u64, u64), VaultError>(
                    (plaintext_sum(views) as u64, frame_sum(views) as u64),
                ) && 0 <= plaintext_sum(views) <= frame_sum(views)
            } else {
                r == Err::<(u64, u64), VaultError>(VaultError::IntegerOverflow)
            }
        }),
{
    let ghost views = chunk_views(chunks@);
    let mut plaintext_bytes: u64 = 0;
    let mut frame_bytes: u64 = 0;
    let mut i: usize = 0;
    assert(views.take(0) =~= Seq::<ChunkView>::empty());
    while i < chunks.len()
        invariant
            i <= chunks@.len(),
            views == chunk_views(chunks@),
            plaintext_bytes == plaintext_sum(views.take(i as int)),
            frame_bytes == frame_sum(views.take(i as int)),
        decreases chunks@.len() - i,
    {
        let entry = chunks[i];
        proof {
            assert(views[i as int] == entry@);
            assert(views.take(i + 1).drop_last() =~= views.take(i as int));
            lemma_sums_grow(views, i + 1);
        }
        plaintext_bytes =
        match checked_add(plaintext_bytes, entry.plaintext_length) {
            Ok(sum) => sum,
            Err(error) => return Err(error),
        };
        let frame: u64 = match checked_add(entry.plaintext_length, AEAD_FRAME_OVERHEAD) {
            Ok(sum) => sum,
            Err(error) => return Err(error),
        };
        frame_bytes =
        match checked_add(frame_bytes, frame) {
            Ok(sum) => sum,
            Err(error) => return Err(error),
        };
        i += 1;
    }
    assert(views.take(i as int) =~= views);
    proof {
        lemma_sums_grow(views, views.len() as int);
    }
    Ok((plaintext_bytes, frame_bytes))
}

/// The gap in front of the first chunk, and the gaps in front of all.
fn sum_gaps(chunks: &Vec<ChunkEntry>) -> (r: Result<(u64, u64), VaultError>)
    ensures
        ({
            let sorted = by_offset(chunk_views(chunks@));
            let fits = chunk_ends_fit(chunk_views(chunks@)) && gap_sum(sorted) <= u64::MAX;
            if fits {
                r == Ok::<(u64, u64), VaultError>(
                    (first_gap(sorted) as u64, gap_sum(sorted) as u64),
                ) && gap_sum(sorted) >= 0
            } else {
                r == Err::<(u64, u64), VaultError>(VaultError::IntegerOverflow)
            }
        }),
{
    let ghost views = chunk_views(chunks@);
    let offsets = chunk_offsets(chunks);
    let order = stable_order(&offsets);
    let ghost sorted = by_offset(views);
    proof {
        law_order_is_stable(offsets_of(views));
        assert forall|j: int| 0 <= j < order@.len() implies (#[trigger] order@[j])
            < chunks@.len() by {
            assert(positions(order@)[j] == order_of(offsets_of(views))[j]);
        }
    }
    let first: u64 = if order.len() > 0 {
        assert(order_of(offsets@)[0] == positions(order@)[0]);
        let offset: u64 = chunks[order[0]].offset_in_blob;
        assert(sorted[0] == chunks@[order@[0] as int]@);
        if offset > FRONT_MATTER_LEN {
            offset - FRONT_MATTER_LEN
        } else {
            0
        }
    } else {
        0
    };
    let mut gaps: u64 = 0;
    let mut cursor: u64 = FRONT_MATTER_LEN;
    let mut i: usize = 0;
    assert(sorted.take(0) =~= Seq::<ChunkView>::empty());
    while i < order.len()
        invariant
            i <= order@.len(),
            order@.len() == chunks@.len(),
            views == chunk_views(chunks@),
            positions(order@) == order_of(offsets_of(views)),
            forall|j: int| 0 <= j < order@.len() ==> (#[trigger] order@[j]) < chunks@.len(),
            forall|x: int| 0 <= x < chunks@.len() ==> #[trigger] positions(order@).contains(x),
            sorted == by_offset(views),
            sorted.len() == order@.len(),
            forall|j: int|
                0 <= j < i ==> chunk_end(#[trigger] views[order@[j] as int]) <= u64::MAX,
            gaps == gap_sum(sorted.take(i as int)),
            cursor == end_of_run(sorted.take(i as int)),
        decreases order@.len() - i,
    {
        let entry = chunks[order[i]];
        let ghost x = order@[i as int] as int;
        proof {
            assert(positions(order@)[i as int] == x);
            assert(sorted[i as int] == views[x]);
            assert(views[x] == entry@);
            assert(sorted.take(i + 1).drop_last() =~= sorted.take(i as int));
            assert(sorted.take(i + 1).last() == entry@);
            lemma_sums_grow(sorted, i + 1);
        }
        if entry.offset_in_blob > cursor {
            gaps =
            match checked_add(gaps, entry.offset_in_blob - cursor) {
                Ok(sum) => sum,
                Err(error) => return Err(error),
            };
        }
        let frame: u64 = match checked_add(entry.plaintext_length, AEAD_FRAME_OVERHEAD) {
            Ok(sum) => sum,
            Err(error) => {
                assert(chunk_end(views[x]) > u64::MAX);
                return Err(error);
            },
        };
        cursor =
        match checked_add(entry.offset_in_blob, frame) {
            Ok(sum) => sum,
            Err(error) => {
                assert(chunk_end(views[x]) > u64::MAX);
                return Err(error);
            },
        };
        i += 1;
    }
    proof {
        assert(sorted.take(i as int) =~= sorted);
        assert forall|x: int| 0 <= x < views.len() implies chunk_end(#[trigger] views[x])
            <= u64::MAX by {
            assert(positions(order@).contains(x));
            let j = choose|j: int| 0 <= j < positions(order@).len() && positions(order@)[j] == x;
            assert(order@[j] as int == x);
        }
        lemma_sums_grow(sorted, sorted.len() as int);
    }
    Ok((first, gaps))
}

/// The breakdown of a blob file: its locator and index, and the length of the file.
pub fn layout_breakdown(
    locator: &Locator,
    index: &BlobIndex,
    plaintext_len: u64,
    file_size: u64,
) -> (r: Result<BlobLayoutStats, VaultError>)
    ensures
        stats_fit(locator@, index@, file_size as int) ==> r == Ok::<BlobLayoutStats, VaultError>(
            stats_of(locator@, index@, plaintext_len as int, file_size as int),
        ),
        !stats_fit(locator@, index@, file_size as int) ==> r == Err::<BlobLayoutStats, VaultError>(
            VaultError::IntegerOverflow,
        ),
{
    proof {
        let views = index@.chunks;
        lemma_sums_grow(views, views.len() as int);
        lemma_sums_grow(by_offset(views), by_offset(views).len() as int);
    }
    let (plaintext_bytes, frame_bytes) = match sum_chunks(&index.chunks) {
        Ok(sums) => sums,
        Err(error) => return Err(error),
    };
    let (before_first, between) = match sum_gaps(&index.chunks) {
        Ok(sums) => sums,
        Err(error) => return Err(error),
    };
    let tail: u64 = match data_tail(index) {
        Ok(tail) => tail,
        Err(error) => return Err(error),
    };
    let index_end: u64 = match checked_add(locator.index_offset, locator.index_length) {
        Ok(end) => end,
        Err(error) => return Err(error),
    };
    let leading: u64 = if locator.index_offset > tail {
        locator.index_offset - tail
    } else {
        0
    };
    let trailing: u64 = if file_size > index_end {
        file_size - index_end
    } else {
        0
    };
    let mut classified: u64 = match checked_add(locator.index_length, trailing) {
        Ok(sum) => sum,
        Err(error) => return Err(error),
    };
    classified =
    match checked_add(leading, classified) {
        Ok(sum) => sum,
        Err(error) => return Err(error),
    };
    classified =
    match checked_add(between, classified) {
        Ok(sum) => sum,
        Err(error) => return Err(error),
    };
    classified =
    match checked_add(before_first, classified) {
        Ok(sum) => sum,
        Err(error) => return Err(error),
    };
    classified =
    match checked_add(frame_bytes, classified) {
        Ok(sum) => sum,
        Err(error) => return Err(error),
    };
    let body: u64 = if file_size > FRONT_MATTER_LEN {
        file_size - FRONT_MATTER_LEN
    } else {
        0
    };
    let unclassified: u64 = if body > classified {
        body - classified
    } else {
        0
    };
    Ok(
        BlobLayoutStats {
            file_size,
            front_matter_bytes: FRONT_MATTER_LEN,
            body_bytes: body,
            locator_generation: locator.generation,
            chunk_count: index.chunks.len(),
            file_complete_count: index.completed_files.len(),
            chunk_plaintext_bytes: plaintext_bytes,
            chunk_frame_bytes: frame_bytes,
            chunk_frame_overhead_bytes: frame_bytes - plaintext_bytes,
            gap_before_first_chunk_bytes: before_first,
            inter_chunk_gap_bytes: between,
            data_tail: tail,
            leading_gap_bytes: leading,
            index_offset: locator.index_offset,
            index_length: locator.index_length,
            index_ciphertext_bytes: locator.index_length,
            index_entry_plaintext_bytes: plaintext_len,
            trailing_gap_bytes: trailing,
            body_unclassified_bytes: unclassified,
        },
    )
}

impl BlobLayoutStats {
    /// What [`BlobLayoutStats::report`] says.
    pub open spec fn report_text(self) -> Seq<char> {
        "file_size:              "@ + decimal(self.file_size as nat)
        + "\nfront_matter:           "@ + decimal(self.front_matter_bytes as nat)
        + "\nbody:                   "@ + decimal(self.body_bytes as nat)
        + "\nlocator:                generation="@ + decimal(self.locator_generation as nat)
        + "\nchunks:                 count="@ + decimal(self.chunk_count as nat)
        + " plaintext="@ + decimal(self.chunk_plaintext_bytes as nat)
        + " frames="@ + decimal(self.chunk_frame_bytes as nat)
        + " (overhead="@ + decimal(self.chunk_frame_overhead_bytes as nat)
        + ")\ngaps (data region):     before_first_chunk="@
        + decimal(self.gap_before_first_chunk_bytes as nat)
        + " inter_chunk="@ + decimal(self.inter_chunk_gap_bytes as nat)
        + " leading_before_index="@ + decimal(self.leading_gap_bytes as nat)
        + "\ndata_tail:              "@ + decimal(self.data_tail as nat)
        + "\nindex:                  offset="@ + decimal(self.index_offset as nat)
        + " length="@ + decimal(self.index_length as nat)
        + " (ciphertext=entries_plaintext="@ + decimal(self.index_entry_plaintext_bytes as nat)
        + ")\ntrailing_gap:           "@ + decimal(self.trailing_gap_bytes as nat)
        + "\nbody_unclassified:      "@ + decimal(self.body_unclassified_bytes as nat)
        + " (stale ciphertext / relocation slack)\n"@
    }

    /// The breakdown in words, one line for each part of the file.
    pub fn report(&self) -> (r: String)
        ensures
            r@ == self.report_text(),
    {
        let mut out = String::from_str("file_size:              ");
        append_decimal(&mut out, self.file_size as u64);
        out.append("\nfront_matter:           ");
        append_decimal(&mut out, self.front_matter_bytes as u64);
        out.append("\nbody:                   ");
        append_decimal(&mut out, self.body_bytes as u64);
        out.append("\nlocator:                generation=");
        append_decimal(&mut out, self.locator_generation as u64);
        out.append("\nchunks:                 count=");
        append_decimal(&mut out, self.chunk_count as u64);
        out.append(" plaintext=");
        append_decimal(&mut out, self.chunk_plaintext_bytes as u64);
        out.append(" frames=");
        append_decimal(&mut out, self.chunk_frame_bytes as u64);
        out.append(" (overhead=");
        append_decimal(&mut out, self.chunk_frame_overhead_bytes as u64);
        out.append(")\ngaps (data region):     before_first_chunk=");
        append_decimal(&mut out, self.gap_before_first_chunk_bytes as u64);
        out.append(" inter_chunk=");
        append_decimal(&mut out, self.inter_chunk_gap_bytes as u64);
        out.append(" leading_before_index=");
        append_decimal(&mut out, self.leading_gap_bytes as u64);
        out.append("\ndata_tail:              ");
        append_decimal(&mut out, self.data_tail as u64);
        out.append("\nindex:                  offset=");
        append_decimal(&mut out, self.index_offset as u64);
        out.append(" length=");
        append_decimal(&mut out, self.index_length as u64);
        out.append(" (ciphertext=entries_plaintext=");
        append_decimal(&mut out, self.index_entry_plaintext_bytes as u64);
        out.append(")\ntrailing_gap:           ");
        append_decimal(&mut out, self.trailing_gap_bytes as u64);
        out.append("\nbody_unclassified:      ");
        append_decimal(&mut out, self.body_unclassified_bytes as u64);
        out.append(" (stale ciphertext / relocation slack)\n");
        out
    }
}

/// The chunks stand one behind the other from the end of the front matter on.
pub open spec fn packed(chunks: Seq<ChunkView>) -> bool {
    forall|i: int|
        0 <= i < chunks.len() ==> (#[trigger] chunks[i]).offset_in_blob == FRONT_MATTER_LEN
            + frame_sum(chunks.take(i))
}

proof fn lemma_packed_prefix(chunks: Seq<ChunkView>)
    requires
        packed(chunks),
        chunks.len() > 0,
    ensures
        packed(chunks.drop_last()),
        chunks.last().offset_in_blob == FRONT_MATTER_LEN + frame_sum(chunks.drop_last()),
        chunk_end(chunks.last()) == FRONT_MATTER_LEN + frame_sum(chunks),
{
    let front = chunks.drop_last();
    assert forall|i: int| 0 <= i < front.len() implies (#[trigger] front[i]).offset_in_blob
        == FRONT_MATTER_LEN + frame_sum(front.take(i)) by {
        assert(front[i] == chunks[i]);
        assert(front.take(i) =~= chunks.take(i));
    }
    let last = chunks.len() - 1;
    assert(chunks[last].offset_in_blob == FRONT_MATTER_LEN + frame_sum(chunks.take(last)));
    assert(chunks.take(last) =~= front);
}

proof fn lemma_packed_sums(chunks: Seq<ChunkView>)
    requires
        packed(chunks),
    ensures
        gap_sum(chunks) == 0,
        data_tail_of(chunks) == FRONT_MATTER_LEN + frame_sum(chunks),
        end_of_run(chunks) == FRONT_MATTER_LEN + frame_sum(chunks),
    decreases chunks.len(),
{
    if chunks.len() > 0 {
        lemma_packed_prefix(chunks);
        lemma_packed_sums(chunks.drop_last());
    }
}

proof fn lemma_ascending_order(keys: Seq<u64>, n: nat)
    requires
        n <= keys.len(),
        forall|i: int, j: int| 0 <= i < j < keys.len() ==> #[trigger] keys[i] < #[trigger] keys[j],
    ensures
        order_of_first(keys, n) == Seq::new(n, |i: int| i),
    decreases n,
{
    let identity = Seq::new(n, |i: int| i);
    if n == 0 {
        assert(order_of_first(keys, n) =~= identity);
    } else {
        lemma_ascending_order(keys, (n - 1) as nat);
        assert(order_of_first(keys, n) =~= identity);
    }
}

proof fn lemma_packed_in_order(chunks: Seq<ChunkView>)
    requires
        packed(chunks),
    ensures
        by_offset(chunks) == chunks,
{
    let keys = offsets_of(chunks);
    assert forall|i: int, j: int| 0 <= i < j < keys.len() implies #[trigger] keys[i]
        < #[trigger] keys[j] by {
        assert(chunks[i].offset_in_blob == FRONT_MATTER_LEN + frame_sum(chunks.take(i)));
        assert(chunks[j].offset_in_blob == FRONT_MATTER_LEN + frame_sum(chunks.take(j)));
        lemma_sums_grow(chunks.take(j), i);
        assert(chunks.take(j).take(i) =~= chunks.take(i));
    }
    lemma_ascending_order(keys, keys.len());
    assert(by_offset(chunks) =~= chunks);
}

/// A file whose chunks are packed, in front of an index that lies inside the file, has no byte
/// without a known use: its body is frames, leading gap, index and trailing gap. The data end where
/// the frames do.
pub proof fn law_packed_file_is_accounted_for(
    locator: LocatorView,
    index: IndexView,
    plaintext_len: int,
    file_size: int,
)
    requires
        packed(index.chunks),
        data_tail_of(index.chunks) <= locator.index_offset,
        locator.index_offset + locator.index_length <= file_size <= u64::MAX,
    ensures
        stats_fit(locator, index, file_size),
        ({
            let stats = stats_of(locator, index, plaintext_len, file_size);
            &&& stats.gap_before_first_chunk_bytes == 0
            &&& stats.inter_chunk_gap_bytes == 0
            &&& stats.body_unclassified_bytes == 0
            &&& stats.body_bytes == stats.chunk_frame_bytes + stats.leading_gap_bytes
                + stats.index_length + stats.trailing_gap_bytes
            &&& stats.file_size == FRONT_MATTER_LEN + stats.body_bytes
            &&& stats.chunk_frame_bytes == stats.chunk_plaintext_bytes + AEAD_FRAME_OVERHEAD
                * index.chunks.len()
            &&& stats.data_tail == FRONT_MATTER_LEN + stats.chunk_frame_bytes
        }),
{
    lemma_packed_in_order(index.chunks);
    lemma_packed_sums(index.chunks);
    lemma_sums_grow(index.chunks, index.chunks.len() as int);
    assert forall|i: int| 0 <= i < index.chunks.len() implies chunk_end(#[trigger] index.chunks[i])
        <= u64::MAX by {
        lemma_data_tail_covers(index.chunks, i);
    }
    if index.chunks.len() > 0 {
        assert(index.chunks[0].offset_in_blob == FRONT_MATTER_LEN + frame_sum(
            index.chunks.take(0),
        ));
        assert(index.chunks.take(0) =~= Seq::<ChunkView>::empty());
    }
}

/// A transaction keeps a file packed: its chunks go right behind the last one.
pub proof fn law_packing_is_kept(chunks: Seq<ChunkView>, new_chunks: Seq<NewChunkView>)
    requires
        packed(chunks),
        prepare_refusal(new_chunks, data_tail_of(chunks)) is None,
    ensures
        packed(chunks + entries_at(new_chunks, data_tail_of(chunks))),
{
    let tail = data_tail_of(chunks);
    let entries = entries_at(new_chunks, tail);
    let all = chunks + entries;
    lemma_packed_sums(chunks);
    assert forall|i: int| 0 <= i < all.len() implies (#[trigger] all[i]).offset_in_blob
        == FRONT_MATTER_LEN + frame_sum(all.take(i)) by {
        if i < chunks.len() {
            assert(all.take(i) =~= chunks.take(i));
            assert(all[i] == chunks[i]);
        } else {
            let k = i - chunks.len();
            lemma_entries_sum(new_chunks, tail, k);
            lemma_sums_join(chunks, entries.take(k));
            assert(all.take(i) =~= chunks + entries.take(k));
            assert(all[i] == entries[k]);
            lemma_sums_grow(chunks, 0);
            assert(chunks.take(0) =~= Seq::<ChunkView>::empty());
        }
    }
}

proof fn lemma_sums_join(a: Seq<ChunkView>, b: Seq<ChunkView>)
    ensures
        plaintext_sum(a + b) == plaintext_sum(a) + plaintext_sum(b),
        frame_sum(a + b) == frame_sum(a) + frame_sum(b),
    decreases b.len(),
{
    if b.len() == 0 {
        assert(a + b =~= a);
    } else {
        lemma_sums_join(a, b.drop_last());
        assert((a + b).drop_last() =~= a + b.drop_last());
        assert((a + b).last() == b.last());
    }
}

proof fn lemma_entries_sum(chunks: Seq<NewChunkView>, tail: int, k: int)
    requires
        0 <= k <= chunks.len(),
        0 <= tail,
        prepare_refusal(chunks, tail) is None,
    ensures
        frame_sum(entries_at(chunks, tail).take(k)) == frames_len(chunks.take(k)),
        0 <= frames_len(chunks.take(k)),
        tail + frames_len(chunks.take(k)) <= u64::MAX || chunks.len() == 0,
    decreases k,
{
    let entries = entries_at(chunks, tail);
    lemma_frames_len_grows(chunks, k);
    if k > 0 {
        lemma_entries_sum(chunks, tail, k - 1);
        lemma_fitting_chunk(chunks, tail, k - 1);
        assert(entries.take(k).drop_last() =~= entries.take(k - 1));
        assert(entries.take(k).last() == entries[k - 1]);
        assert(chunks.take(k).drop_last() =~= chunks.take(k - 1));
        assert(chunks.take(k).last() == chunks[k - 1]);
    }
}

} // verus!
