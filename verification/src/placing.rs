//! Which blob each piece of a file goes to, and when a file is refused.
//!
//! Everything here is said in plain numbers: what a blob takes already, what a piece adds to it, and
//! what the configuration allows.

use vstd::prelude::*;

use crate::capacity::{law_pieces_add_up, sum_of};
use crate::error::VaultError;
use crate::plan::{
    estimated_size, last_planned, lemma_blob_size_natural, nothing_planned, piece_sizes, pieces_of,
    split_plan, FilePlan,
};
use crate::vault::{LocatedChunk, LocatedComplete, VaultIndexView, VaultView};

verus! {

/// How many pieces a file of `len` bytes is cut into.
pub open spec fn cut_count(len: int, size: int) -> int {
    if len == 0 {
        1
    } else {
        (len + size - 1) / size
    }
}

/// How long the `j`-th piece is: as long as it may be, but for the last.
pub open spec fn cut_len(len: int, size: int, j: int) -> int {
    if (j + 1) * size <= len {
        size
    } else {
        len - j * size
    }
}

proof fn lemma_cut_count(len: int, size: int)
    requires
        0 < size < len,
    ensures
        cut_count(len, size) == cut_count(len - size, size) + 1,
{
    vstd::arithmetic::div_mod::lemma_div_plus_one(len - size + size - 1, size);
    assert(size + (len - size + size - 1) == len + size - 1);
}

/// The `j`-th piece starts where `j` full pieces end, and is as long as it may be.
pub open spec fn cut_at(contents: Seq<u8>, size: int, j: int, piece: Seq<u8>, len: int) -> bool {
    let cut = cut_len(contents.len() as int, size, j);
    &&& 0 <= j * size <= j * size + cut <= contents.len()
    &&& piece == contents.subrange(j * size, j * size + cut)
    &&& len == cut
    &&& cut <= size
    &&& cut == 0 ==> contents.len() == 0
}

/// A file is cut into pieces of one size, in order and without a gap; only the last may be shorter,
/// and it is empty only where the file is.
pub proof fn law_file_is_cut_evenly(contents: Seq<u8>, size: int)
    requires
        0 < size,
    ensures
        pieces_of(contents, size).len() == cut_count(contents.len() as int, size),
        piece_sizes(contents.len() as int, size).len() == cut_count(contents.len() as int, size),
        forall|j: int|
            0 <= j < pieces_of(contents, size).len() ==> cut_at(
                contents,
                size,
                j,
                #[trigger] pieces_of(contents, size)[j],
                piece_sizes(contents.len() as int, size)[j],
            ),
    decreases contents.len(),
{
    let len = contents.len() as int;
    let pieces = pieces_of(contents, size);
    let sizes = piece_sizes(len, size);
    if len <= size {
        assert(cut_count(len, size) == 1) by {
            if len > 0 {
                vstd::arithmetic::div_mod::lemma_div_plus_one(len - 1, size);
                vstd::arithmetic::div_mod::lemma_basic_div(len - 1, size);
                assert(size + (len - 1) == len + size - 1);
            }
        }
    } else {
        law_file_is_cut_evenly(contents.skip(size), size);
        lemma_cut_count(len, size);
    }
    assert forall|j: int| 0 <= j < pieces.len() implies cut_at(
        contents,
        size,
        j,
        #[trigger] pieces[j],
        sizes[j],
    ) by {
        if j == 0 {
            assert(j * size == 0 && (j + 1) * size == size) by (nonlinear_arith)
                requires
                    j == 0,
            ;
            if len <= size {
                assert(contents.subrange(0, len) =~= contents);
            } else {
                assert(contents.take(size) =~= contents.subrange(0, size));
            }
        } else {
            let k = j - 1;
            let rest = contents.skip(size);
            let cut = cut_len(len - size, size, k);
            assert(pieces[j] == pieces_of(rest, size)[k]);
            assert(sizes[j] == piece_sizes(len - size, size)[k]);
            assert(cut_at(rest, size, k, pieces_of(rest, size)[k], sizes[j]));
            assert(j * size == k * size + size && (j + 1) * size == (k + 1) * size + size)
                by (nonlinear_arith)
                requires
                    j == k + 1,
            ;
            assert(rest.subrange(k * size, k * size + cut) =~= contents.subrange(
                j * size,
                j * size + cut,
            ));
        }
    }
}

/// What a blob takes is counted entry by entry: a chunk its plaintext, forty bytes of frame and
/// seventy-three of index, a marker fifty-seven, each for the blob that holds it and for no other.
pub proof fn law_size_is_counted_by_entry(
    index: VaultIndexView,
    chunk: LocatedChunk,
    marker: LocatedComplete,
    blob_id: Seq<u8>,
)
    ensures
        index.chunks.len() == 0 && index.completed_files.len() == 0 ==> estimated_size(
            index,
            blob_id,
        ) == 0,
        estimated_size(
            VaultIndexView { chunks: index.chunks.push(chunk), ..index },
            blob_id,
        ) == estimated_size(index, blob_id) + if chunk.blob_id == blob_id {
            chunk.entry.plaintext_length + 40 + 73
        } else {
            0
        },
        estimated_size(
            VaultIndexView { completed_files: index.completed_files.push(marker), ..index },
            blob_id,
        ) == estimated_size(index, blob_id) + if marker.blob_id == blob_id {
            57int
        } else {
            0int
        },
{
    reveal(Seq::filter);
    let keep = |c: LocatedChunk| c.blob_id == blob_id;
    let keep_mark = |c: LocatedComplete| c.blob_id == blob_id;
    assert(index.chunks.push(chunk).drop_last() =~= index.chunks);
    assert(index.completed_files.push(marker).drop_last() =~= index.completed_files);
    let kept = index.chunks.filter(keep);
    assert(kept.push(chunk).drop_last() =~= kept);
}

/// How many blobs are asked before blob `i` where blob `start` is asked first and `count` in all.
pub open spec fn asked_before(start: int, i: int, count: int) -> int {
    if i >= start {
        i - start
    } else {
        i + count - start
    }
}

proof fn lemma_asked(start: int, m: int, count: int)
    requires
        0 <= start < count,
        0 <= m < count,
    ensures
        ({
            let i = (start + m) % count;
            0 <= i < count && asked_before(start, i, count) == m
        }),
{
    if start + m < count {
        vstd::arithmetic::div_mod::lemma_small_mod((start + m) as nat, count as nat);
    } else {
        vstd::arithmetic::div_mod::lemma_mod_sub_multiples_vanish(start + m, count);
        vstd::arithmetic::div_mod::lemma_small_mod((start + m - count) as nat, count as nat);
    }
}

/// What is found when the blobs are asked one after the other, each with so many bytes on it
/// already, for one that has room for some more.
proof fn lemma_first_with_room(v: VaultView, planned: Seq<u64>, bytes: int, k: int)
    requires
        v.blobs.len() > 0,
        0 <= k <= v.blobs.len(),
        forall|i: int|
            0 <= i < v.blobs.len() ==> #[trigger] v.blob_size(i) + planned[i] + bytes <= u64::MAX,
    ensures
        match v.first_with_room(planned, bytes, k) {
            Ok(at) => {
                &&& 0 <= at < v.blobs.len()
                &&& v.blob_size(at) + planned[at] + bytes <= v.config.max_blob_size
                &&& k <= asked_before(v.scan_start(), at, v.blobs.len() as int)
                &&& forall|i: int|
                    0 <= i < v.blobs.len() && k <= asked_before(
                        v.scan_start(),
                        i,
                        v.blobs.len() as int,
                    ) < asked_before(v.scan_start(), at, v.blobs.len() as int)
                        ==> #[trigger] v.blob_size(i) + planned[i] + bytes
                        > v.config.max_blob_size
            },
            Err(error) => {
                &&& error == VaultError::NoWritableBlob
                &&& forall|i: int|
                    0 <= i < v.blobs.len() && k <= asked_before(
                        v.scan_start(),
                        i,
                        v.blobs.len() as int,
                    ) ==> #[trigger] v.blob_size(i) + planned[i] + bytes > v.config.max_blob_size
            },
        },
    decreases v.blobs.len() - k,
{
    let n = v.blobs.len() as int;
    vstd::arithmetic::div_mod::lemma_mod_bound(v.cursor as int, n);
    if k < n {
        lemma_asked(v.scan_start(), k, n);
        let i = (v.scan_start() + k) % n;
        assert(v.blob_size(i) + planned[i] + bytes <= u64::MAX);
        if v.blob_size(i) + planned[i] + bytes > v.config.max_blob_size {
            lemma_first_with_room(v, planned, bytes, k + 1);
            assert forall|t: int|
                0 <= t < n && asked_before(v.scan_start(), t, n) == k implies t == i by {}
        }
    }
}

/// A file that is kept whole goes, in pieces of the largest size, to the first blob that has room
/// for all of it and its marker, asked from the one whose turn it is; then it is the next one's
/// turn. It is refused as too large where no blob could ever hold it, and for want of room where no
/// blob has any, and for no other reason.
#[verifier::rlimit(30)]
pub proof fn law_whole_file_is_placed(v: VaultView, len: int)
    requires
        v.valid(),
        v.blobs.len() <= usize::MAX,
        !v.config.split_files_across_blobs,
        0 <= len,
        forall|i: int|
            0 <= i < v.blobs.len() ==> #[trigger] v.blob_size(i) + len + 113 * cut_count(
                len,
                v.config.max_chunk_size as int,
            ) + 57 <= u64::MAX,
    ensures
        ({
            let n = v.blobs.len() as int;
            let limit = v.config.max_blob_size;
            let size = v.config.max_chunk_size as int;
            let bytes = len + 113 * cut_count(len, size) + 57;
            let start = v.cursor as int % n;
            let (r, now) = v.file_plan(len);
            match r {
                Ok(plan) => {
                    let at = plan.blobs[0];
                    &&& bytes <= limit
                    &&& plan.chunk_size == size
                    &&& plan.blobs.len() == cut_count(len, size) > 0
                    &&& forall|j: int| 0 <= j < plan.blobs.len() ==> #[trigger] plan.blobs[j] == at
                    &&& 0 <= at < n
                    &&& v.blob_size(at) + bytes <= limit
                    &&& forall|i: int|
                        0 <= i < n && asked_before(start, i, n) < asked_before(start, at, n)
                            ==> #[trigger] v.blob_size(i) + bytes > limit
                    &&& now == (VaultView { cursor: now.cursor, ..v })
                    &&& now.cursor == if at + 1 == n {
                        0
                    } else {
                        at + 1
                    }
                },
                Err(error) => {
                    &&& now == v
                    &&& error == if bytes > limit {
                        VaultError::FileExceedsBlobCapacity
                    } else {
                        VaultError::NoWritableBlob
                    }
                    &&& forall|i: int| 0 <= i < n ==> #[trigger] v.blob_size(i) + bytes > limit
                },
            }
        }),
{
    let n = v.blobs.len() as int;
    let size = v.config.max_chunk_size as int;
    let contents = Seq::new(len as nat, |i: int| 0u8);
    law_file_is_cut_evenly(contents, size);
    let bytes = len + 113 * cut_count(len, size) + 57;
    let planned = nothing_planned(v.blobs.len());
    assert forall|i: int| 0 <= i < n implies #[trigger] v.blob_size(i) + planned[i] + bytes
        <= u64::MAX by {
        assert(v.blob_size(i) + len + 113 * cut_count(len, size) + 57 <= u64::MAX);
    }
    lemma_blob_size_natural(v, 0);
    assert(v.blob_size(0) + planned[0] + bytes <= u64::MAX);
    lemma_first_with_room(v, planned, bytes, 0);
    vstd::arithmetic::div_mod::lemma_mod_bound(v.cursor as int, n);
    assert forall|i: int| 0 <= i < n implies #[trigger] v.blob_size(i) >= 0 by {
        lemma_blob_size_natural(v, i);
    }
    match v.chosen(planned, bytes) {
        Ok(at) => {
            if at + 1 == n {
                vstd::arithmetic::div_mod::lemma_mod_self_0(n);
            } else {
                vstd::arithmetic::div_mod::lemma_small_mod((at + 1) as nat, n as nat);
            }
            assert forall|i: int|
                0 <= i < n && asked_before(v.scan_start(), i, n) < asked_before(
                    v.scan_start(),
                    at,
                    n,
                ) implies #[trigger] v.blob_size(i) + bytes > v.config.max_blob_size by {
                assert(v.blob_size(i) + planned[i] + bytes > v.config.max_blob_size);
            }
        },
        Err(_) => {
            assert forall|i: int| 0 <= i < n implies #[trigger] v.blob_size(i) + bytes
                > v.config.max_blob_size by {
                if bytes <= v.config.max_blob_size {
                    assert(v.blob_size(i) + planned[i] + bytes > v.config.max_blob_size);
                }
            }
        },
    }
}

/// How long the pieces of a file of `len` bytes are.
pub open spec fn cuts(len: int, size: int) -> Seq<int> {
    Seq::new(cut_count(len, size) as nat, |j: int| cut_len(len, size, j))
}

/// What goes to a blob where pieces of these sizes go to these blobs: each piece, and for each forty
/// bytes of frame and seventy-three of index.
pub open spec fn goes_to(sizes: Seq<int>, blobs: Seq<int>, i: int) -> int
    decreases blobs.len(),
{
    if blobs.len() == 0 {
        0
    } else {
        goes_to(sizes, blobs.drop_last(), i) + if blobs.last() == i {
            sizes[blobs.len() - 1] + 40 + 73
        } else {
            0
        }
    }
}

/// The blob behind blob `i`, or the first one behind the last.
pub open spec fn next_blob(v: VaultView, i: int) -> int {
    if i + 1 == v.blobs.len() {
        0
    } else {
        i + 1
    }
}

/// The blob that is asked first for the next piece, where the pieces before it go to these blobs.
pub open spec fn asked_next(v: VaultView, blobs: Seq<int>) -> int {
    if !v.config.stripe_chunks_across_blobs {
        0
    } else if blobs.len() == 0 {
        v.cursor as int % v.blobs.len() as int
    } else {
        next_blob(v, blobs.last())
    }
}

/// What a blob would take if the next piece went to it.
pub open spec fn would_take(v: VaultView, sizes: Seq<int>, blobs: Seq<int>, i: int) -> int {
    v.blob_size(i) + goes_to(sizes, blobs, i) + sizes[blobs.len() as int] + 40 + 73
}

/// The next piece goes to blob `at`: the first one with room for it.
pub open spec fn has_its_place(v: VaultView, sizes: Seq<int>, blobs: Seq<int>, at: int) -> bool {
    let n = v.blobs.len() as int;
    let start = asked_next(v, blobs);
    &&& 0 <= at < n
    &&& would_take(v, sizes, blobs, at) <= v.config.max_blob_size
    &&& forall|i: int|
        0 <= i < n && asked_before(start, i, n) < asked_before(start, at, n)
            ==> #[trigger] would_take(v, sizes, blobs, i) > v.config.max_blob_size
}

/// Each piece goes to the first blob with room for it.
pub open spec fn all_placed(v: VaultView, sizes: Seq<int>, blobs: Seq<int>) -> bool {
    &&& blobs.len() <= sizes.len()
    &&& forall|j: int|
        0 <= j < blobs.len() ==> has_its_place(v, sizes, blobs.take(j), #[trigger] blobs[j])
}

/// What a blob takes once the pieces are there, and the marker of fifty-seven bytes, which goes to
/// the last blob with a piece.
pub open spec fn takes_in_the_end(
    v: VaultView,
    sizes: Seq<int>,
    blobs: Seq<int>,
    i: int,
) -> int {
    v.blob_size(i) + goes_to(sizes, blobs, i) + if forall|j: int|
        0 <= j < blobs.len() ==> #[trigger] blobs[j] <= i {
        57int
    } else {
        0int
    }
}

/// Every blob with a piece is within the limit, with the marker counted.
pub open spec fn all_fit(v: VaultView, sizes: Seq<int>, blobs: Seq<int>) -> bool {
    forall|i: int|
        0 <= i < v.blobs.len() && blobs.contains(i) ==> #[trigger] takes_in_the_end(
            v,
            sizes,
            blobs,
            i,
        ) <= v.config.max_blob_size
}

/// The pieces go to these blobs as far as they go, and then some piece has room in no blob, or the
/// marker makes a blob too large.
pub open spec fn runs_out(v: VaultView, sizes: Seq<int>, blobs: Seq<int>) -> bool {
    &&& all_placed(v, sizes, blobs)
    &&& if blobs.len() < sizes.len() {
        forall|i: int|
            0 <= i < v.blobs.len() ==> #[trigger] would_take(v, sizes, blobs, i)
                > v.config.max_blob_size
    } else {
        !all_fit(v, sizes, blobs)
    }
}

/// All pieces, with frames and index entries.
spec fn all_bytes(sizes: Seq<int>) -> int {
    sum_of(sizes) + 113 * sizes.len()
}

proof fn lemma_sums_are_natural(sizes: Seq<int>)
    requires
        forall|j: int| 0 <= j < sizes.len() ==> 0 <= #[trigger] sizes[j],
    ensures
        sum_of(sizes) >= 0,
        sizes.len() > 0 ==> sum_of(sizes.drop_last()) <= sum_of(sizes),
    decreases sizes.len(),
{
    if sizes.len() > 0 {
        let front = sizes.drop_last();
        assert forall|j: int| 0 <= j < front.len() implies 0 <= #[trigger] front[j] by {
            assert(front[j] == sizes[j]);
        }
        lemma_sums_are_natural(front);
        assert(sizes[sizes.len() - 1] >= 0);
    }
}

proof fn lemma_goes_to(sizes: Seq<int>, blobs: Seq<int>, i: int)
    requires
        blobs.len() <= sizes.len(),
        forall|j: int| 0 <= j < sizes.len() ==> 0 <= #[trigger] sizes[j],
    ensures
        0 <= goes_to(sizes, blobs, i) <= all_bytes(sizes.take(blobs.len() as int)),
        blobs.contains(i) <==> goes_to(sizes, blobs, i) > 0,
    decreases blobs.len(),
{
    let m = blobs.len() as int;
    assert forall|j: int| 0 <= j < m implies 0 <= #[trigger] sizes.take(m)[j] by {
        assert(sizes[j] >= 0);
    }
    lemma_sums_are_natural(sizes.take(m));
    if m > 0 {
        let front = blobs.drop_last();
        lemma_goes_to(sizes, front, i);
        assert(sizes.take(m).drop_last() =~= sizes.take(m - 1));
        assert(sizes[m - 1] >= 0);
        if blobs.contains(i) && blobs.last() != i {
            let j = choose|j: int| 0 <= j < blobs.len() && blobs[j] == i;
            assert(front[j] == i);
        }
        if front.contains(i) {
            let j = choose|j: int| 0 <= j < front.len() && front[j] == i;
            assert(blobs[j] == i);
        }
        if blobs.last() == i {
            assert(blobs[m - 1] == i);
        }
    }
}

proof fn lemma_goes_to_same(a: Seq<int>, b: Seq<int>, blobs: Seq<int>, i: int)
    requires
        blobs.len() <= a.len() <= b.len(),
        forall|j: int| 0 <= j < a.len() ==> #[trigger] a[j] == b[j],
    ensures
        goes_to(a, blobs, i) == goes_to(b, blobs, i),
    decreases blobs.len(),
{
    if blobs.len() > 0 {
        lemma_goes_to_same(a, b, blobs.drop_last(), i);
        assert(a[blobs.len() - 1] == b[blobs.len() - 1]);
    }
}

/// Pieces that come behind do not matter to where the first ones go.
proof fn lemma_placed_among_more(v: VaultView, a: Seq<int>, b: Seq<int>, blobs: Seq<int>)
    requires
        a.len() <= b.len(),
        forall|j: int| 0 <= j < a.len() ==> #[trigger] a[j] == b[j],
        all_placed(v, a, blobs),
    ensures
        all_placed(v, b, blobs),
{
    assert forall|j: int| 0 <= j < blobs.len() implies has_its_place(
        v,
        b,
        blobs.take(j),
        #[trigger] blobs[j],
    ) by {
        assert(has_its_place(v, a, blobs.take(j), blobs[j]));
        assert(a[j] == b[j]);
        assert forall|i: int| would_take(v, a, blobs.take(j), i) == #[trigger] would_take(
            v,
            b,
            blobs.take(j),
            i,
        ) by {
            lemma_goes_to_same(a, b, blobs.take(j), i);
        }
    }
}

/// How far the pieces go, and where.
proof fn lemma_split_plan_places(v: VaultView, sizes: Seq<int>)
    requires
        v.blobs.len() > 0,
        v.blobs.len() <= usize::MAX,
        v.config.split_files_across_blobs,
        forall|j: int| 0 <= j < sizes.len() ==> 0 <= #[trigger] sizes[j],
        forall|i: int|
            0 <= i < v.blobs.len() ==> #[trigger] v.blob_size(i) + all_bytes(sizes) <= u64::MAX,
    ensures
        ({
            let plan = split_plan(v, sizes);
            &&& all_placed(v, sizes, plan.blobs)
            &&& plan.planned.len() == v.blobs.len()
            &&& forall|i: int|
                0 <= i < v.blobs.len() ==> #[trigger] plan.planned[i] == goes_to(
                    sizes,
                    plan.blobs,
                    i,
                )
            &&& plan.vault == (VaultView { cursor: plan.vault.cursor, ..v })
            &&& plan.blobs.len() > 0 ==> plan.vault.cursor == next_blob(v, plan.blobs.last())
            &&& plan.blobs.len() == 0 ==> plan.vault == v
            &&& plan.refusal is None ==> plan.blobs.len() == sizes.len()
            &&& plan.refusal matches Some(error) ==> error == VaultError::NoWritableBlob
                && plan.blobs.len() < sizes.len() && runs_out(v, sizes, plan.blobs)
        }),
    decreases sizes.len(),
{
    let n = v.blobs.len() as int;
    let plan = split_plan(v, sizes);
    if sizes.len() > 0 {
        let front = sizes.drop_last();
        let before = split_plan(v, front);
        let last = sizes.len() - 1;
        assert forall|j: int| 0 <= j < front.len() implies 0 <= #[trigger] front[j] by {
            assert(front[j] == sizes[j]);
        }
        lemma_sums_are_natural(sizes);
        lemma_sums_are_natural(front);
        assert forall|i: int| 0 <= i < n implies #[trigger] v.blob_size(i) + all_bytes(front)
            <= u64::MAX by {
            assert(v.blob_size(i) + all_bytes(sizes) <= u64::MAX);
        }
        lemma_split_plan_places(v, front);
        lemma_placed_among_more(v, front, sizes, before.blobs);
        assert forall|i: int| 0 <= i < n implies #[trigger] before.planned[i] == goes_to(
            sizes,
            before.blobs,
            i,
        ) by {
            lemma_goes_to_same(front, sizes, before.blobs, i);
        }
        if before.refusal is Some {
            assert forall|i: int| 0 <= i < n implies #[trigger] would_take(
                v,
                sizes,
                before.blobs,
                i,
            ) > v.config.max_blob_size by {
                lemma_goes_to_same(front, sizes, before.blobs, i);
                assert(would_take(v, front, before.blobs, i) > v.config.max_blob_size);
            }
        } else {
            let w = before.vault;
            let bytes = sizes.last() + 113;
            assert(sizes[last] >= 0);
            assert(sizes.take(last) =~= front);
            assert forall|i: int| 0 <= i < n implies #[trigger] w.blob_size(i)
                + before.planned[i] + bytes <= u64::MAX && w.blob_size(i) + before.planned[i]
                + bytes == would_take(v, sizes, before.blobs, i) by {
                lemma_goes_to(sizes, before.blobs, i);
                assert(v.blob_size(i) + all_bytes(sizes) <= u64::MAX);
                assert(w.blob_size(i) == v.blob_size(i));
                assert(before.planned[i] == goes_to(sizes, before.blobs, i));
            }
            lemma_blob_size_natural(v, 0);
            assert(v.blob_size(0) + all_bytes(sizes) <= u64::MAX);
            lemma_first_with_room(w, before.planned, bytes, 0);
            vstd::arithmetic::div_mod::lemma_mod_bound(v.cursor as int, n);
            if before.blobs.len() > 0 {
                let t = before.blobs.len() - 1;
                assert(has_its_place(v, sizes, before.blobs.take(t), before.blobs[t]));
                vstd::arithmetic::div_mod::lemma_small_mod(
                    next_blob(v, before.blobs.last()) as nat,
                    n as nat,
                );
            }
            assert(w.scan_start() == asked_next(v, before.blobs));
            match w.chosen(before.planned, bytes) {
                Ok(at) => {
                    if at + 1 == n {
                        vstd::arithmetic::div_mod::lemma_mod_self_0(n);
                    } else {
                        vstd::arithmetic::div_mod::lemma_small_mod((at + 1) as nat, n as nat);
                    }
                    assert(w.blob_size(at) + before.planned[at] + bytes <= u64::MAX);
                    assert forall|i: int|
                        0 <= i < n && asked_before(w.scan_start(), i, n) < asked_before(
                            w.scan_start(),
                            at,
                            n,
                        ) implies #[trigger] would_take(v, sizes, before.blobs, i)
                        > v.config.max_blob_size by {
                        assert(w.blob_size(i) + before.planned[i] + bytes
                            > w.config.max_blob_size);
                    }
                    assert(has_its_place(v, sizes, before.blobs, at));
                    assert forall|j: int| 0 <= j < plan.blobs.len() implies has_its_place(
                        v,
                        sizes,
                        plan.blobs.take(j),
                        #[trigger] plan.blobs[j],
                    ) by {
                        if j < last {
                            assert(plan.blobs.take(j) =~= before.blobs.take(j));
                            assert(plan.blobs[j] == before.blobs[j]);
                        } else {
                            assert(plan.blobs.take(j) =~= before.blobs);
                        }
                    }
                    assert(plan.blobs.drop_last() =~= before.blobs);
                    assert forall|i: int| 0 <= i < n implies #[trigger] plan.planned[i] == goes_to(
                        sizes,
                        plan.blobs,
                        i,
                    ) by {
                        assert(before.planned[i] == goes_to(sizes, before.blobs, i));
                        lemma_blob_size_natural(w, at);
                    }
                },
                Err(_) => {
                    assert forall|i: int| 0 <= i < n implies #[trigger] would_take(
                        v,
                        sizes,
                        before.blobs,
                        i,
                    ) > v.config.max_blob_size by {
                        assert(w.blob_size(i) + before.planned[i] + bytes
                            > w.config.max_blob_size);
                    }
                },
            }
        }
    }
}

proof fn lemma_last_planned_is_largest(planned: Seq<u64>)
    ensures
        match last_planned(planned) {
            None => forall|i: int| 0 <= i < planned.len() ==> #[trigger] planned[i] == 0,
            Some(at) => 0 <= at < planned.len() && planned[at] > 0 && forall|i: int|
                at < i < planned.len() ==> #[trigger] planned[i] == 0,
        },
    decreases planned.len(),
{
    if planned.len() > 0 && planned.last() == 0 {
        let front = planned.drop_last();
        lemma_last_planned_is_largest(front);
        assert forall|i: int| 0 <= i < front.len() implies #[trigger] planned[i] == front[i] by {}
    }
}

proof fn lemma_overfull_decides(v: VaultView, planned: Seq<u64>, from: int)
    requires
        0 <= from <= planned.len(),
        forall|i: int|
            0 <= i < planned.len() ==> #[trigger] v.blob_size(i) + planned[i] <= u64::MAX,
    ensures
        match v.overfull(planned, from) {
            None => forall|i: int|
                from <= i < planned.len() && planned[i] > 0 ==> #[trigger] v.blob_size(i)
                    + planned[i] <= v.config.max_blob_size,
            Some(error) => error == VaultError::NoWritableBlob && exists|i: int|
                from <= i < planned.len() && planned[i] > 0 && #[trigger] v.blob_size(i)
                    + planned[i] > v.config.max_blob_size,
        },
    decreases planned.len() - from,
{
    if from < planned.len() {
        lemma_overfull_decides(v, planned, from + 1);
        assert(v.blob_size(from) + planned[from] <= u64::MAX);
    }
}

/// A file that is split goes in pieces as large as a blob of its own could hold, each to the first
/// blob with room for it: asked from the first blob on, or, where pieces are striped, from the one
/// behind the last piece, which is whose turn it then is. It is refused for want of room, where some
/// piece has room in no blob or the marker makes the last blob too large, and for no other reason.
#[verifier::rlimit(30)]
pub proof fn law_split_file_is_placed(v: VaultView, len: int)
    requires
        v.valid(),
        v.blobs.len() <= usize::MAX,
        v.config.split_files_across_blobs,
        v.config.max_blob_size > 170,
        0 <= len,
        forall|i: int|
            0 <= i < v.blobs.len() ==> #[trigger] v.blob_size(i) + len + 113 * cut_count(
                len,
                split_size(v),
            ) + 57 <= u64::MAX,
    ensures
        ({
            let sizes = cuts(len, split_size(v));
            let (r, now) = v.file_plan(len);
            &&& now == (VaultView { cursor: now.cursor, ..v })
            &&& match r {
                Ok(plan) => {
                    &&& plan.chunk_size == split_size(v)
                    &&& plan.blobs.len() == sizes.len() > 0
                    &&& all_placed(v, sizes, plan.blobs)
                    &&& all_fit(v, sizes, plan.blobs)
                    &&& now.cursor == next_blob(v, plan.blobs.last())
                },
                Err(error) => {
                    &&& error == VaultError::NoWritableBlob
                    &&& exists|blobs: Seq<int>| #[trigger] runs_out(v, sizes, blobs)
                },
            }
        }),
{
    let n = v.blobs.len() as int;
    let size = split_size(v);
    let sizes = cuts(len, size);
    let contents = Seq::new(len as nat, |i: int| 0u8);
    law_file_is_cut_evenly(contents, size);
    assert forall|j: int| 0 <= j < sizes.len() implies piece_sizes(len, size)[j]
        == #[trigger] sizes[j] && 0 <= sizes[j] by {
        assert(cut_at(contents, size, j, pieces_of(contents, size)[j], piece_sizes(len, size)[j]));
    }
    assert(piece_sizes(len, size) =~= sizes);
    law_pieces_add_up(len, size);
    assert forall|i: int| 0 <= i < n implies #[trigger] v.blob_size(i) + all_bytes(sizes)
        <= u64::MAX by {
        assert(v.blob_size(i) + len + 113 * cut_count(len, size) + 57 <= u64::MAX);
    }
    lemma_split_plan_places(v, sizes);
    let plan = split_plan(v, sizes);
    if plan.refusal is None {
        let w = plan.vault;
        let blobs = plan.blobs;
        let planned = plan.planned;
        assert(sizes.take(sizes.len() as int) =~= sizes);
        assert forall|i: int| 0 <= i < n implies (#[trigger] planned[i] > 0 <==> blobs.contains(i))
            && planned[i] <= all_bytes(sizes) by {
            lemma_goes_to(sizes, blobs, i);
            assert(planned[i] == goes_to(sizes, blobs, i));
        }
        lemma_last_planned_is_largest(planned);
        assert(blobs.contains(blobs[0]));
        assert(has_its_place(v, sizes, blobs.take(0), blobs[0]));
        assert(planned[blobs[0]] > 0);
        let at = last_planned(planned)->0;
        assert(planned[at] > 0);
        assert forall|j: int| 0 <= j < blobs.len() implies 0 <= #[trigger] blobs[j] <= at by {
            assert(has_its_place(v, sizes, blobs.take(j), blobs[j]));
            assert(blobs.contains(blobs[j]));
            assert(planned[blobs[j]] > 0);
        }
        lemma_blob_size_natural(v, at);
        assert(v.blob_size(at) + len + 113 * cut_count(len, size) + 57 <= u64::MAX);
        let marked = planned.update(at, (planned[at] + 57) as u64);
        assert forall|i: int| 0 <= i < n implies #[trigger] w.blob_size(i) + marked[i]
            <= u64::MAX && (blobs.contains(i) ==> w.blob_size(i) + marked[i] == takes_in_the_end(
            v,
            sizes,
            blobs,
            i,
        )) by {
            assert(w.blob_size(i) == v.blob_size(i));
            assert(v.blob_size(i) + len + 113 * cut_count(len, size) + 57 <= u64::MAX);
            assert(planned[i] == goes_to(sizes, blobs, i));
            if blobs.contains(i) && i != at {
                let j = choose|j: int| 0 <= j < blobs.len() && blobs[j] == at;
                assert(blobs[j] > i) by {
                    let t = choose|t: int| 0 <= t < blobs.len() && blobs[t] == i;
                    assert(blobs[t] <= at);
                }
            }
        }
        lemma_overfull_decides(w, marked, 0);
        if w.overfull(marked, 0) is None {
            assert forall|i: int| 0 <= i < n && blobs.contains(i) implies
                #[trigger] takes_in_the_end(v, sizes, blobs, i) <= v.config.max_blob_size by {
                assert(planned[i] > 0);
                assert(w.blob_size(i) + marked[i] <= w.config.max_blob_size);
            }
        } else {
            let i = choose|i: int|
                0 <= i < marked.len() && marked[i] > 0 && #[trigger] w.blob_size(i) + marked[i]
                    > w.config.max_blob_size;
            assert(planned[i] > 0);
            assert(takes_in_the_end(v, sizes, blobs, i) > v.config.max_blob_size);
            assert(runs_out(v, sizes, blobs));
        }
    } else {
        assert(runs_out(v, sizes, plan.blobs));
    }
}

/// The largest piece of a file that is split: a chunk of the largest size, or what a blob holds
/// besides the chunk's frame, its index entry and the marker of the file.
pub open spec fn split_size(v: VaultView) -> int {
    if v.config.max_blob_size - 40 - 73 - 57 < v.config.max_chunk_size {
        v.config.max_blob_size - 40 - 73 - 57
    } else {
        v.config.max_chunk_size as int
    }
}

/// A file is refused for the configuration alone exactly where it is to be split and no blob could
/// hold a chunk of it with its frame, its index entry and the marker.
pub proof fn law_configuration_refuses(v: VaultView, len: int)
    requires
        v.valid(),
    ensures
        v.file_plan(len).0 == Err::<FilePlan, VaultError>(VaultError::InvalidConfig)
            <==> v.config.split_files_across_blobs && v.config.max_blob_size <= 170,
{
    if v.config.split_files_across_blobs {
        if v.config.max_blob_size > 170 {
            let sizes = piece_sizes(len, split_size(v));
            lemma_refusals(v, sizes);
            let plan = split_plan(v, sizes);
            lemma_overfull_refusals(
                plan.vault,
                plan.planned.update(
                    last_planned(plan.planned)->0,
                    (plan.planned[last_planned(plan.planned)->0] + 57) as u64,
                ),
                0,
            );
        }
    } else {
        lemma_room_refusals(
            v,
            nothing_planned(v.blobs.len()),
            len + 113 * piece_sizes(len, v.config.max_chunk_size as int).len() + 57,
            0,
        );
    }
}

proof fn lemma_room_refusals(v: VaultView, planned: Seq<u64>, bytes: int, k: int)
    ensures
        v.first_with_room(planned, bytes, k) matches Err(error) ==> error
            == VaultError::NoWritableBlob || error == VaultError::IntegerOverflow,
    decreases v.blobs.len() - k,
{
    if k < v.blobs.len() {
        lemma_room_refusals(v, planned, bytes, k + 1);
    }
}

proof fn lemma_overfull_refusals(v: VaultView, planned: Seq<u64>, i: int)
    ensures
        v.overfull(planned, i) matches Some(error) ==> error == VaultError::NoWritableBlob || error
            == VaultError::IntegerOverflow,
    decreases planned.len() - i,
{
    if i < planned.len() {
        lemma_overfull_refusals(v, planned, i + 1);
    }
}

proof fn lemma_refusals(v: VaultView, sizes: Seq<int>)
    requires
        v.blobs.len() > 0,
        v.config.split_files_across_blobs,
    ensures
        split_plan(v, sizes).refusal matches Some(error) ==> error == VaultError::NoWritableBlob
            || error == VaultError::IntegerOverflow,
        split_plan(v, sizes).vault.blobs == v.blobs,
        split_plan(v, sizes).vault.config == v.config,
    decreases sizes.len(),
{
    if sizes.len() > 0 {
        lemma_refusals(v, sizes.drop_last());
        let before = split_plan(v, sizes.drop_last());
        lemma_room_refusals(before.vault, before.planned, sizes.last() + 113, 0);
    }
}

proof fn lemma_one_way(v: VaultView, sizes: Seq<int>, a: Seq<int>, b: Seq<int>, j: int)
    requires
        v.blobs.len() > 0,
        all_placed(v, sizes, a),
        all_placed(v, sizes, b),
        0 <= j <= a.len(),
        j <= b.len(),
    ensures
        a.take(j) == b.take(j),
    decreases j,
{
    if j > 0 {
        lemma_one_way(v, sizes, a, b, j - 1);
        let done = a.take(j - 1);
        assert(has_its_place(v, sizes, a.take(j - 1), a[j - 1]));
        assert(has_its_place(v, sizes, b.take(j - 1), b[j - 1]));
        let n = v.blobs.len() as int;
        let start = asked_next(v, done);
        if asked_before(start, a[j - 1], n) < asked_before(start, b[j - 1], n) {
            assert(would_take(v, sizes, done, a[j - 1]) > v.config.max_blob_size);
        } else if asked_before(start, b[j - 1], n) < asked_before(start, a[j - 1], n) {
            assert(would_take(v, sizes, done, b[j - 1]) > v.config.max_blob_size);
        }
        vstd::arithmetic::div_mod::lemma_mod_bound(v.cursor as int, n);
        if done.len() > 0 {
            assert(has_its_place(v, sizes, a.take(j - 2), a[j - 2]));
            assert(done.last() == a[j - 2]);
        }
        assert(a[j - 1] == b[j - 1]);
        assert(a.take(j) =~= a.take(j - 1).push(a[j - 1]));
        assert(b.take(j) =~= b.take(j - 1).push(b[j - 1]));
    }
}

/// A file that is split is stored wherever it fits: where each piece has its place and no blob is
/// too large in the end, that is how it is placed.
pub proof fn law_split_file_that_fits_is_placed(v: VaultView, len: int, blobs: Seq<int>)
    requires
        v.valid(),
        v.blobs.len() <= usize::MAX,
        v.config.split_files_across_blobs,
        v.config.max_blob_size > 170,
        0 <= len,
        forall|i: int|
            0 <= i < v.blobs.len() ==> #[trigger] v.blob_size(i) + len + 113 * cut_count(
                len,
                split_size(v),
            ) + 57 <= u64::MAX,
        blobs.len() == cut_count(len, split_size(v)),
        all_placed(v, cuts(len, split_size(v)), blobs),
        all_fit(v, cuts(len, split_size(v)), blobs),
    ensures
        v.file_plan(len).0 == Ok::<FilePlan, VaultError>(
            FilePlan { chunk_size: split_size(v), blobs },
        ),
{
    let sizes = cuts(len, split_size(v));
    law_split_file_is_placed(v, len);
    match v.file_plan(len).0 {
        Ok(plan) => {
            lemma_one_way(v, sizes, plan.blobs, blobs, blobs.len() as int);
            assert(plan.blobs.take(blobs.len() as int) =~= plan.blobs);
            assert(blobs.take(blobs.len() as int) =~= blobs);
        },
        Err(_) => {
            let other = choose|other: Seq<int>| #[trigger] runs_out(v, sizes, other);
            let m = other.len() as int;
            lemma_one_way(v, sizes, other, blobs, m);
            assert(other.take(m) =~= other);
            if m < sizes.len() {
                assert(has_its_place(v, sizes, blobs.take(m), blobs[m]));
                assert(would_take(v, sizes, other, blobs[m]) > v.config.max_blob_size);
            } else {
                assert(blobs.take(m) =~= blobs);
            }
        },
    }
}

} // verus!
