//! What the files of a vault hold, and what storing and reading has to do with it.
//!
//! A vault stands on one file for each of its blobs. It is consistent with those files when each is
//! consistent and what is known of it is what it holds.

use vstd::prelude::*;

use crate::blob::{data_tail_of, BlobView, AEAD_FRAME_OVERHEAD};
use crate::commit::{added_entries, entries_at, joined};
use crate::consistency::lemma_piece_of_joined;
use crate::error::VaultError;
use crate::files::{
    latest, law_listing_order_does_not_matter, lemma_by_number, lemma_total_len_grows, same_members,
    total_len,
};
use crate::index::{IndexView, NewChunkView};
use crate::read::{frame_fits, law_chunk_is_read};
use crate::session::position_of;
use crate::storage::{honest, Reply, StepView};
use crate::transfer::{larger, smaller, RangeView};
use crate::types::CompleteView;
use crate::vault::{
    locate_chunks, locate_completes, LocatedChunk, LocatedComplete, VaultIndexView, VaultView,
};

verus! {

/// Whether a chunk is of the file.
pub open spec fn of_file(file_id: Seq<u8>) -> spec_fn(LocatedChunk) -> bool {
    |c: LocatedChunk| c.entry.file_id == file_id
}

/// Whether a marker is of the file and counts at least so many chunks.
pub open spec fn counting(file_id: Seq<u8>, count: int) -> spec_fn(LocatedComplete) -> bool {
    |c: LocatedComplete| c.entry.file_id == file_id && c.entry.total_chunks >= count
}

impl VaultIndexView {
    /// What is known of a blob's chunks.
    pub open spec fn blob_chunks(self, blob_id: Seq<u8>) -> Seq<LocatedChunk> {
        self.chunks.filter(|c: LocatedChunk| c.blob_id == blob_id)
    }

    /// What is known of a blob's completion markers.
    pub open spec fn blob_completes(self, blob_id: Seq<u8>) -> Seq<LocatedComplete> {
        self.completed_files.filter(|c: LocatedComplete| c.blob_id == blob_id)
    }

    /// The completion markers of a file that count at least so many chunks.
    pub open spec fn completes_from(self, file_id: Seq<u8>, count: int) -> Seq<LocatedComplete> {
        self.completed_files.filter(counting(file_id, count))
    }

    /// Nothing is known of a blob that is not among these.
    pub open spec fn only_of(self, blobs: Seq<BlobView>) -> bool {
        &&& forall|k: int|
            0 <= k < self.chunks.len() ==> position_of(
                blobs,
                (#[trigger] self.chunks[k]).blob_id,
                0,
            ) is Some
        &&& forall|k: int|
            0 <= k < self.completed_files.len() ==> position_of(
                blobs,
                (#[trigger] self.completed_files[k]).blob_id,
                0,
            ) is Some
    }
}

impl VaultView {
    /// What is known of a blob is what its file holds.
    pub open spec fn knows(self, i: int, image: Seq<u8>) -> bool {
        let b = self.blobs[i];
        &&& self.index.blob_chunks(b.blob_id) == locate_chunks(b.blob_id, b.entries(image).chunks)
        &&& self.index.blob_completes(b.blob_id) == locate_completes(
            b.blob_id,
            b.entries(image).completed_files,
        )
    }

    /// Every blob has a file that is consistent, and no two blobs are the same. Whether the vault
    /// knows what the files hold is another matter.
    pub open spec fn sound(self, images: Seq<Seq<u8>>) -> bool {
        &&& self.valid()
        &&& images.len() == self.blobs.len()
        &&& forall|i: int|
            0 <= i < self.blobs.len() ==> (#[trigger] self.blobs[i]).consistent(images[i])
        &&& forall|i: int, j: int|
            0 <= i < j < self.blobs.len() ==> (#[trigger] self.blobs[i]).blob_id != (
            #[trigger] self.blobs[j]).blob_id
    }

    /// The files are consistent, the vault knows what they hold, and nothing else is known.
    pub open spec fn consistent(self, images: Seq<Seq<u8>>) -> bool {
        &&& self.sound(images)
        &&& forall|i: int|
            0 <= i < self.blobs.len() ==> #[trigger] self.knows(i, images[i])
        &&& self.index.only_of(self.blobs)
    }

    /// What is known of a blob's chunks of the file, and of its markers of the file that count at
    /// least so many chunks, is what the blob's file holds of them.
    pub open spec fn knows_file(
        self,
        i: int,
        image: Seq<u8>,
        file_id: Seq<u8>,
        count: int,
    ) -> bool {
        let b = self.blobs[i];
        let chunks = locate_chunks(b.blob_id, b.entries(image).chunks);
        let marks = locate_completes(b.blob_id, b.entries(image).completed_files);
        &&& self.index.blob_chunks(b.blob_id).filter(of_file(file_id)) == chunks.filter(
            of_file(file_id),
        )
        &&& self.index.blob_completes(b.blob_id).filter(counting(file_id, count)) == marks.filter(
            counting(file_id, count),
        )
    }

    /// The vault knows what its files hold of one file: its chunks, and its markers that count at
    /// least so many chunks. On other files and on smaller markers it may be behind.
    pub open spec fn current_on(
        self,
        images: Seq<Seq<u8>>,
        file_id: Seq<u8>,
        count: int,
    ) -> bool {
        &&& self.sound(images)
        &&& forall|i: int|
            0 <= i < self.blobs.len() ==> #[trigger] self.knows_file(
                i,
                images[i],
                file_id,
                count,
            )
        &&& forall|k: int|
            0 <= k < self.index.file_chunks(file_id).len() ==> position_of(
                self.blobs,
                (#[trigger] self.index.file_chunks(file_id)[k]).blob_id,
                0,
            ) is Some
        &&& forall|k: int|
            0 <= k < self.index.completes_from(file_id, count).len() ==> position_of(
                self.blobs,
                (#[trigger] self.index.completes_from(file_id, count)[k]).blob_id,
                0,
            ) is Some
    }

    /// What a chunk reads as.
    pub open spec fn chunk_contents(self, images: Seq<Seq<u8>>, chunk: LocatedChunk) -> Result<
        Seq<u8>,
        VaultError,
    > {
        match position_of(self.blobs, chunk.blob_id, 0) {
            None => Err(VaultError::BlobNotFound),
            Some(i) => self.blobs[i].stored_chunk(chunk.entry, images[i]),
        }
    }

    /// The chunk is where its entry says, and reads as it should.
    pub open spec fn readable(self, images: Seq<Seq<u8>>, chunk: LocatedChunk) -> bool {
        &&& position_of(self.blobs, chunk.blob_id, 0) matches Some(i)
        &&& chunk.entry.offset_in_blob + chunk.entry.plaintext_length + AEAD_FRAME_OVERHEAD
            <= images[i].len()
        &&& self.chunk_contents(images, chunk) is Ok
    }

    /// What the chunks read as.
    pub open spec fn plaintexts(self, images: Seq<Seq<u8>>, chunks: Seq<LocatedChunk>) -> Seq<
        Seq<u8>,
    > {
        Seq::new(chunks.len(), |k: int| self.chunk_contents(images, chunks[k])->Ok_0)
    }

    /// What the chunks read as, one behind the other.
    pub open spec fn contents(self, images: Seq<Seq<u8>>, chunks: Seq<LocatedChunk>) -> Seq<u8> {
        joined(self.plaintexts(images, chunks))
    }

    /// Every chunk is where its entry says, reads as it should, and fits into memory.
    pub open spec fn all_readable(self, images: Seq<Seq<u8>>, chunks: Seq<LocatedChunk>) -> bool {
        forall|k: int|
            0 <= k < chunks.len() ==> self.readable(images, #[trigger] chunks[k]) && frame_fits(
                chunks[k].entry,
            )
    }
}

/// A position that is found is one of the blobs, and has the identity.
pub proof fn lemma_position(blobs: Seq<BlobView>, blob_id: Seq<u8>, from: int)
    requires
        0 <= from,
    ensures
        position_of(blobs, blob_id, from) matches Some(i) ==> from <= i < blobs.len()
            && blobs[i].blob_id == blob_id,
    decreases blobs.len() - from,
{
    if from < blobs.len() && blobs[from].blob_id != blob_id {
        lemma_position(blobs, blob_id, from + 1);
    }
}

/// Where identities are distinct, the position of a blob's identity is the blob's.
pub proof fn lemma_own_position(blobs: Seq<BlobView>, i: int, from: int)
    requires
        0 <= from <= i < blobs.len(),
        forall|a: int, b: int|
            0 <= a < b < blobs.len() ==> (#[trigger] blobs[a]).blob_id != (
            #[trigger] blobs[b]).blob_id,
    ensures
        position_of(blobs, blobs[i].blob_id, from) == Some(i),
    decreases i - from,
{
    if from < i {
        assert(blobs[from].blob_id != blobs[i].blob_id);
        lemma_own_position(blobs, i, from + 1);
    }
}

proof fn lemma_plaintext_lengths(
    v: VaultView,
    images: Seq<Seq<u8>>,
    chunks: Seq<LocatedChunk>,
    k: int,
)
    requires
        0 <= k <= chunks.len(),
        v.all_readable(images, chunks),
    ensures
        joined(v.plaintexts(images, chunks).take(k)).len() == total_len(chunks.take(k)),
    decreases k,
{
    let plaintexts = v.plaintexts(images, chunks);
    if k > 0 {
        lemma_plaintext_lengths(v, images, chunks, k - 1);
        assert(plaintexts.take(k).drop_last() =~= plaintexts.take(k - 1));
        assert(chunks.take(k).drop_last() =~= chunks.take(k - 1));
        assert(chunks.take(k).last() == chunks[k - 1]);
        assert(v.readable(images, chunks[k - 1]));
    }
}

/// What readable chunks hold is as long as their entries say.
pub proof fn lemma_contents_len(v: VaultView, images: Seq<Seq<u8>>, chunks: Seq<LocatedChunk>)
    requires
        v.all_readable(images, chunks),
    ensures
        v.contents(images, chunks).len() == total_len(chunks),
{
    lemma_plaintext_lengths(v, images, chunks, chunks.len() as int);
    assert(v.plaintexts(images, chunks).take(chunks.len() as int) =~= v.plaintexts(images, chunks));
    assert(chunks.take(chunks.len() as int) =~= chunks);
}

proof fn lemma_chunk_in_contents(
    v: VaultView,
    images: Seq<Seq<u8>>,
    chunks: Seq<LocatedChunk>,
    k: int,
)
    requires
        0 <= k < chunks.len(),
        v.all_readable(images, chunks),
    ensures
        ({
            let start = total_len(chunks.take(k));
            let end = start + chunks[k].entry.plaintext_length;
            let contents = v.contents(images, chunks);
            &&& 0 <= start
            &&& end <= contents.len()
            &&& contents.subrange(start, end) == v.chunk_contents(images, chunks[k])->Ok_0
            &&& contents.len() == total_len(chunks)
            &&& total_len(chunks.take(k + 1)) == end
        }),
{
    let plaintexts = v.plaintexts(images, chunks);
    lemma_plaintext_lengths(v, images, chunks, k);
    lemma_contents_len(v, images, chunks);
    assert(v.readable(images, chunks[k]));
    lemma_piece_of_joined(plaintexts, k);
    lemma_total_len_grows(chunks, k);
    assert(chunks.take(k + 1).drop_last() =~= chunks.take(k));
    assert(chunks.take(k + 1).last() == chunks[k]);
}

impl RangeView {
    /// How far the range is read when the `k`-th chunk is next.
    pub open spec fn covered(self, k: int) -> int {
        smaller(self.end, larger(self.offset, self.start_of(k)))
    }

    /// The range is one of a file whose chunks all read as they should, and what was read so far
    /// is what the file holds there.
    pub open spec fn tracks(self, v: VaultView, images: Seq<Seq<u8>>) -> bool {
        &&& v.all_readable(images, self.chunks)
        &&& total_len(self.chunks) <= u64::MAX
        &&& 0 <= self.offset < self.end <= total_len(self.chunks)
        &&& 0 <= self.next < self.chunks.len()
        &&& position_of(v.blobs, self.chunks[self.next].blob_id, 0) == Some(self.at)
        &&& self.offset < self.end_of(self.next)
        &&& self.start_of(self.next) < self.end
        &&& self.out == v.contents(images, self.chunks).subrange(
            self.offset,
            self.covered(self.next),
        )
    }
}

proof fn lemma_going_on(
    r: RangeView,
    v: VaultView,
    images: Seq<Seq<u8>>,
    k: int,
    out: Seq<u8>,
)
    requires
        v.all_readable(images, r.chunks),
        total_len(r.chunks) <= u64::MAX,
        0 <= r.offset < r.end <= total_len(r.chunks),
        0 <= k <= r.chunks.len(),
        out == v.contents(images, r.chunks).subrange(r.offset, r.covered(k)),
    ensures
        match r.going_on(v, k, out) {
            StepView::Ask(next) => {
                &&& next.tracks(v, images)
                &&& next.chunks == r.chunks
                &&& next.offset == r.offset
                &&& next.end == r.end
            },
            StepView::Done(result) => result == Ok::<Seq<u8>, VaultError>(
                v.contents(images, r.chunks).subrange(r.offset, r.end),
            ),
        },
    decreases r.chunks.len() - k,
{
    let contents = v.contents(images, r.chunks);
    if k >= r.chunks.len() {
        assert(r.chunks.take(k) =~= r.chunks);
        assert(r.covered(k) == r.end);
    } else {
        lemma_chunk_in_contents(v, images, r.chunks, k);
        if r.end_of(k) <= r.offset {
            assert(r.covered(k + 1) == r.covered(k));
            lemma_going_on(r, v, images, k + 1, out);
        } else if r.start_of(k) < r.end {
            assert(v.readable(images, r.chunks[k]));
        }
    }
}

/// Reading a range, from files that answer as they should, leads on or ends with what the file
/// holds in that range.
pub proof fn law_range_is_what_the_file_holds(
    r: RangeView,
    v: VaultView,
    images: Seq<Seq<u8>>,
    reply: Reply,
)
    requires
        r.tracks(v, images),
        honest(images[r.at], r.asks(), reply),
    ensures
        match r.on_reply(v, reply) {
            StepView::Ask(next) => {
                &&& next.tracks(v, images)
                &&& next.chunks == r.chunks
                &&& next.offset == r.offset
                &&& next.end == r.end
            },
            StepView::Done(result) => result == Ok::<Seq<u8>, VaultError>(
                v.contents(images, r.chunks).subrange(r.offset, r.end),
            ),
        },
{
    let k = r.next;
    let chunk = r.chunks[k];
    let contents = v.contents(images, r.chunks);
    assert(v.readable(images, chunk));
    law_chunk_is_read(v.blobs[r.at], images[r.at], chunk.entry, reply);
    let plaintext = v.chunk_contents(images, chunk)->Ok_0;
    lemma_chunk_in_contents(v, images, r.chunks, k);
    let start = r.start_of(k);
    let part = r.part(k, plaintext);
    assert(part =~= contents.subrange(
        larger(r.offset, start),
        smaller(r.end, r.end_of(k)),
    )) by {
        let whole = contents.subrange(start, r.end_of(k));
        assert(whole == plaintext);
        assert forall|i: int| 0 <= i < part.len() implies part[i] == contents[larger(
            r.offset,
            start,
        ) + i] by {
            assert(whole[larger(r.offset, start) - start + i] == contents[larger(r.offset, start)
                + i]);
        }
    }
    assert(r.out + part =~= contents.subrange(r.offset, r.covered(k + 1)));
    lemma_going_on(r, v, images, k + 1, r.out + part);
}

/// Reading a range of a file that is complete and all of whose chunks read as they should starts
/// on the way to what the file holds there. Nothing is read behind the end of the file.
pub proof fn law_range_read_starts(
    v: VaultView,
    images: Seq<Seq<u8>>,
    file_id: Seq<u8>,
    offset: u64,
    length: u64,
)
    requires
        v.index.incompleteness(file_id) is None,
        v.index.ordered(file_id) is Ok,
        v.all_readable(images, v.index.ordered(file_id)->Ok_0),
        total_len(v.index.ordered(file_id)->Ok_0) <= u64::MAX,
        offset + length <= u64::MAX,
    ensures
        ({
            let chunks = v.index.ordered(file_id)->Ok_0;
            let contents = v.contents(images, chunks);
            let from = smaller(offset as int, contents.len() as int);
            let to = smaller(offset + length, contents.len() as int);
            match v.range_start(file_id, offset, length) {
                StepView::Ask(next) => {
                    &&& next.tracks(v, images)
                    &&& next.chunks == chunks
                    &&& next.offset == from
                    &&& next.end == to
                },
                StepView::Done(result) => result == Ok::<Seq<u8>, VaultError>(
                    contents.subrange(from, to),
                ),
            }
        }),
{
    let chunks = v.index.ordered(file_id)->Ok_0;
    let contents = v.contents(images, chunks);
    let size = total_len(chunks);
    lemma_contents_len(v, images, chunks);
    if offset >= size || length == 0 {
        let from = smaller(offset as int, contents.len() as int);
        let to = smaller(offset + length, contents.len() as int);
        assert(contents.subrange(from, to) =~= Seq::<u8>::empty());
    } else {
        let start = RangeView {
            chunks,
            next: 0,
            offset: offset as int,
            end: smaller(offset + length, size),
            out: Seq::empty(),
            at: 0,
        };
        assert(chunks.take(0) =~= Seq::<LocatedChunk>::empty());
        assert(Seq::<u8>::empty() =~= contents.subrange(start.offset, start.covered(0)));
        lemma_going_on(start, v, images, 0, Seq::empty());
    }
}

/// What filtering keeps.
pub proof fn lemma_filter_members<A>(s: Seq<A>, p: spec_fn(A) -> bool, x: A)
    ensures
        s.filter(p).contains(x) <==> s.contains(x) && p(x),
    decreases s.len(),
{
    reveal(Seq::filter);
    if s.len() > 0 {
        let front = s.drop_last();
        lemma_filter_members(front, p, x);
        if s.contains(x) {
            let i = choose|i: int| 0 <= i < s.len() && s[i] == x;
            if i < front.len() {
                assert(front[i] == x);
            }
        }
        if front.contains(x) {
            let i = choose|i: int| 0 <= i < front.len() && front[i] == x;
            assert(s[i] == x);
        }
        if p(s.last()) {
            let kept = front.filter(p);
            let all = kept.push(s.last());
            if all.contains(x) {
                let i = choose|i: int| 0 <= i < all.len() && all[i] == x;
                if i < kept.len() {
                    assert(kept[i] == x);
                } else {
                    assert(s[s.len() - 1] == x);
                }
            }
            if kept.contains(x) {
                let i = choose|i: int| 0 <= i < kept.len() && kept[i] == x;
                assert(all[i] == x);
            }
            if x == s.last() {
                assert(all[kept.len() as int] == x);
            }
        }
    }
}

/// Filtering by what holds of all keeps all.
pub proof fn lemma_filter_all<A>(s: Seq<A>, p: spec_fn(A) -> bool)
    requires
        forall|i: int| 0 <= i < s.len() ==> p(#[trigger] s[i]),
    ensures
        s.filter(p) == s,
    decreases s.len(),
{
    reveal(Seq::filter);
    if s.len() > 0 {
        let front = s.drop_last();
        assert forall|i: int| 0 <= i < front.len() implies p(#[trigger] front[i]) by {
            assert(front[i] == s[i]);
        }
        lemma_filter_all(front, p);
        assert(p(s[s.len() - 1]));
        assert(s.filter(p) =~= s);
    } else {
        assert(s.filter(p) =~= s);
    }
}

/// Filtering by what holds of none keeps none.
pub proof fn lemma_filter_none<A>(s: Seq<A>, p: spec_fn(A) -> bool)
    requires
        forall|i: int| 0 <= i < s.len() ==> !p(#[trigger] s[i]),
    ensures
        s.filter(p) == Seq::<A>::empty(),
    decreases s.len(),
{
    reveal(Seq::filter);
    if s.len() > 0 {
        let front = s.drop_last();
        assert forall|i: int| 0 <= i < front.len() implies !p(#[trigger] front[i]) by {
            assert(front[i] == s[i]);
        }
        lemma_filter_none(front, p);
        assert(!p(s[s.len() - 1]));
    }
}

proof fn lemma_filter_twice<A>(s: Seq<A>, a: spec_fn(A) -> bool, b: spec_fn(A) -> bool)
    requires
        forall|x: A| #[trigger] b(x) ==> a(x),
    ensures
        s.filter(a).filter(b) == s.filter(b),
    decreases s.len(),
{
    reveal(Seq::filter);
    if s.len() > 0 {
        let front = s.drop_last();
        lemma_filter_twice(front, a, b);
        if a(s.last()) {
            assert(front.filter(a).push(s.last()).drop_last() =~= front.filter(a));
        }
        if b(s.last()) {
            assert(a(s.last()));
        }
    }
}

pub proof fn lemma_filter_parts<A>(s: Seq<A>, q: spec_fn(A) -> bool, p: spec_fn(A) -> bool)
    ensures
        same_members(
            s.filter(p),
            s.filter(|x: A| !q(x)).filter(p) + s.filter(q).filter(p),
        ),
{
    let not_q = |x: A| !q(x);
    let parts = s.filter(not_q).filter(p) + s.filter(q).filter(p);
    lemma_filter_part_lengths(s, q, p);
    assert forall|x: A| #[trigger] s.filter(p).contains(x) <==> parts.contains(x) by {
        lemma_filter_members(s, p, x);
        lemma_filter_members(s.filter(not_q), p, x);
        lemma_filter_members(s, not_q, x);
        lemma_filter_members(s.filter(q), p, x);
        lemma_filter_members(s, q, x);
        lemma_contains_concat(s.filter(not_q).filter(p), s.filter(q).filter(p), x);
    }
}

proof fn lemma_filter_part_lengths<A>(s: Seq<A>, q: spec_fn(A) -> bool, p: spec_fn(A) -> bool)
    ensures
        s.filter(p).len() == s.filter(|x: A| !q(x)).filter(p).len() + s.filter(q).filter(p).len(),
    decreases s.len(),
{
    reveal(Seq::filter);
    let not_q = |x: A| !q(x);
    if s.len() > 0 {
        let front = s.drop_last();
        lemma_filter_part_lengths(front, q, p);
        if q(s.last()) {
            assert(front.filter(q).push(s.last()).drop_last() =~= front.filter(q));
        } else {
            assert(front.filter(not_q).push(s.last()).drop_last() =~= front.filter(not_q));
        }
    }
}

/// What is in either part is in both together.
pub proof fn lemma_contains_concat<A>(a: Seq<A>, b: Seq<A>, x: A)
    ensures
        (a + b).contains(x) <==> a.contains(x) || b.contains(x),
{
    let all = a + b;
    if all.contains(x) {
        let i = choose|i: int| 0 <= i < all.len() && all[i] == x;
        if i < a.len() {
            assert(a[i] == x);
        } else {
            assert(b[i - a.len()] == x);
        }
    }
    if a.contains(x) {
        let i = choose|i: int| 0 <= i < a.len() && a[i] == x;
        assert(all[i] == x);
    }
    if b.contains(x) {
        let i = choose|i: int| 0 <= i < b.len() && b[i] == x;
        assert(all[a.len() + i] == x);
    }
}

/// What is known of a blob once its index was put in place, and of the others.
pub proof fn lemma_blob_index_replaced(
    index: VaultIndexView,
    id: Seq<u8>,
    entries: IndexView,
    other: Seq<u8>,
)
    ensures
        ({
            let now = index.replaced(id, entries);
            if other == id {
                &&& now.blob_chunks(other) == locate_chunks(id, entries.chunks)
                &&& now.blob_completes(other) == locate_completes(id, entries.completed_files)
            } else {
                &&& now.blob_chunks(other) == index.blob_chunks(other)
                &&& now.blob_completes(other) == index.blob_completes(other)
            }
        }),
{
    let now = index.replaced(id, entries);
    let is_other = |c: LocatedChunk| c.blob_id == other;
    let is_other_complete = |c: LocatedComplete| c.blob_id == other;
    let not_id = |c: LocatedChunk| c.blob_id != id;
    let not_id_complete = |c: LocatedComplete| c.blob_id != id;
    let kept = index.chunks.filter(not_id);
    let kept_completes = index.completed_files.filter(not_id_complete);
    let fresh = locate_chunks(id, entries.chunks);
    let fresh_completes = locate_completes(id, entries.completed_files);
    Seq::filter_distributes_over_add(kept, fresh, is_other);
    Seq::filter_distributes_over_add(kept_completes, fresh_completes, is_other_complete);
    if other == id {
        lemma_filter_all(fresh, is_other);
        lemma_filter_all(fresh_completes, is_other_complete);
        assert forall|k: int| 0 <= k < kept.len() implies !is_other(#[trigger] kept[k]) by {
            lemma_filter_members(index.chunks, not_id, kept[k]);
            assert(kept.contains(kept[k]));
        }
        assert forall|k: int| 0 <= k < kept_completes.len() implies !is_other_complete(
            #[trigger] kept_completes[k],
        ) by {
            lemma_filter_members(index.completed_files, not_id_complete, kept_completes[k]);
            assert(kept_completes.contains(kept_completes[k]));
        }
        lemma_filter_none(kept, is_other);
        lemma_filter_none(kept_completes, is_other_complete);
        assert(now.blob_chunks(other) =~= fresh);
        assert(now.blob_completes(other) =~= fresh_completes);
    } else {
        lemma_filter_twice(index.chunks, not_id, is_other);
        lemma_filter_twice(index.completed_files, not_id_complete, is_other_complete);
        lemma_filter_none(fresh, is_other);
        lemma_filter_none(fresh_completes, is_other_complete);
        assert(now.blob_chunks(other) =~= index.blob_chunks(other));
        assert(now.blob_completes(other) =~= index.blob_completes(other));
    }
}

/// Putting the index of one of the blobs in place adds nothing of a blob that is not among them.
pub proof fn lemma_replaced_positions(
    index: VaultIndexView,
    id: Seq<u8>,
    entries: IndexView,
    blobs: Seq<BlobView>,
)
    requires
        position_of(blobs, id, 0) is Some,
        index.only_of(blobs),
    ensures
        index.replaced(id, entries).only_of(blobs),
{
    let now = index.replaced(id, entries);
    let not_id = |c: LocatedChunk| c.blob_id != id;
    let kept = index.chunks.filter(not_id);
    let fresh = locate_chunks(id, entries.chunks);
    assert forall|k: int| 0 <= k < now.chunks.len() implies position_of(
        blobs,
        (#[trigger] now.chunks[k]).blob_id,
        0,
    ) is Some by {
        if k < kept.len() {
            assert(now.chunks[k] == kept[k]);
            assert(kept.contains(kept[k]));
            lemma_filter_members(index.chunks, not_id, kept[k]);
            let j = choose|j: int| 0 <= j < index.chunks.len() && index.chunks[j] == kept[k];
            assert(position_of(blobs, index.chunks[j].blob_id, 0) is Some);
        } else {
            assert(now.chunks[k] == fresh[k - kept.len()]);
        }
    }
    let not_id_complete = |c: LocatedComplete| c.blob_id != id;
    let kept_marks = index.completed_files.filter(not_id_complete);
    let fresh_marks = locate_completes(id, entries.completed_files);
    assert forall|k: int| 0 <= k < now.completed_files.len() implies position_of(
        blobs,
        (#[trigger] now.completed_files[k]).blob_id,
        0,
    ) is Some by {
        if k < kept_marks.len() {
            assert(now.completed_files[k] == kept_marks[k]);
            assert(kept_marks.contains(kept_marks[k]));
            lemma_filter_members(index.completed_files, not_id_complete, kept_marks[k]);
            let j = choose|j: int|
                0 <= j < index.completed_files.len() && index.completed_files[j] == kept_marks[k];
            assert(position_of(blobs, index.completed_files[j].blob_id, 0) is Some);
        } else {
            assert(now.completed_files[k] == fresh_marks[k - kept_marks.len()]);
        }
    }
}

/// One blob received new chunks and completion markers, and nothing else changed: its file went
/// from one consistent state to the next, the chunks that were there read as they did, the new ones
/// as what was sent, and the vault knows of it.
pub open spec fn delivered(
    v: VaultView,
    images: Seq<Seq<u8>>,
    blob: int,
    chunks: Seq<NewChunkView>,
    completes: Seq<CompleteView>,
    now: VaultView,
    now_images: Seq<Seq<u8>>,
) -> bool {
    let b = v.blobs[blob];
    let old = b.entries(images[blob]);
    let tail = data_tail_of(old.chunks);
    let image = now_images[blob];
    &&& 0 <= blob < v.blobs.len()
    &&& now_images == images.update(blob, image)
    &&& b.consistent(image)
    &&& b.entries(image) == old.concat(added_entries(chunks, completes, tail))
    &&& now == v.with_blob_index(blob, b.entries(image))
    &&& forall|i: int|
        0 <= i < old.chunks.len() ==> b.stored_chunk(#[trigger] old.chunks[i], image)
            == b.stored_chunk(old.chunks[i], images[blob])
    &&& forall|i: int|
        0 <= i < chunks.len() ==> b.stored_chunk(entries_at(chunks, tail)[i], image) == Ok::<
            Seq<u8>,
            VaultError,
        >((#[trigger] chunks[i]).plaintext)
}

/// Delivery keeps a vault consistent with its files.
pub proof fn law_delivery_keeps_consistency(
    v: VaultView,
    images: Seq<Seq<u8>>,
    blob: int,
    chunks: Seq<NewChunkView>,
    completes: Seq<CompleteView>,
    now: VaultView,
    now_images: Seq<Seq<u8>>,
)
    requires
        v.consistent(images),
        delivered(v, images, blob, chunks, completes, now, now_images),
    ensures
        now.consistent(now_images),
        now.blobs == v.blobs,
{
    let id = v.blobs[blob].blob_id;
    let entries = v.blobs[blob].entries(now_images[blob]);
    assert forall|i: int| 0 <= i < now.blobs.len() implies #[trigger] now.knows(
        i,
        now_images[i],
    ) by {
        lemma_blob_index_replaced(v.index, id, entries, v.blobs[i].blob_id);
        if i != blob {
            assert(v.knows(i, images[i]));
            if i < blob {
                assert(v.blobs[i].blob_id != v.blobs[blob].blob_id);
            } else {
                assert(v.blobs[blob].blob_id != v.blobs[i].blob_id);
            }
        }
    }
    lemma_own_position(v.blobs, blob, 0);
    lemma_replaced_positions(v.index, id, entries, v.blobs);
    assert forall|i: int| 0 <= i < now.blobs.len() implies (#[trigger] now.blobs[i]).consistent(
        now_images[i],
    ) by {
        assert(v.blobs[i].consistent(images[i]));
    }
}

/// A vault that is consistent with its files is current on every file.
pub proof fn law_consistent_vault_is_current(
    v: VaultView,
    images: Seq<Seq<u8>>,
    file_id: Seq<u8>,
    count: int,
)
    requires
        v.consistent(images),
    ensures
        v.current_on(images, file_id, count),
{
    assert forall|i: int| 0 <= i < v.blobs.len() implies #[trigger] v.knows_file(
        i,
        images[i],
        file_id,
        count,
    ) by {
        assert(v.knows(i, images[i]));
    }
    let listed = v.index.file_chunks(file_id);
    assert forall|k: int| 0 <= k < listed.len() implies position_of(
        v.blobs,
        (#[trigger] listed[k]).blob_id,
        0,
    ) is Some by {
        assert(listed.contains(listed[k]));
        lemma_filter_members(v.index.chunks, of_file(file_id), listed[k]);
        let j = choose|j: int| 0 <= j < v.index.chunks.len() && v.index.chunks[j] == listed[k];
        assert(position_of(v.blobs, v.index.chunks[j].blob_id, 0) is Some);
    }
    let marks = v.index.completes_from(file_id, count);
    assert forall|k: int| 0 <= k < marks.len() implies position_of(
        v.blobs,
        (#[trigger] marks[k]).blob_id,
        0,
    ) is Some by {
        let all = v.index.completed_files;
        assert(marks.contains(marks[k]));
        lemma_filter_members(all, counting(file_id, count), marks[k]);
        let j = choose|j: int| 0 <= j < all.len() && all[j] == marks[k];
        assert(position_of(v.blobs, v.index.completed_files[j].blob_id, 0) is Some);
    }
}

/// Delivery leaves every blob with a file that is consistent.
pub proof fn law_delivery_keeps_soundness(
    v: VaultView,
    images: Seq<Seq<u8>>,
    blob: int,
    chunks: Seq<NewChunkView>,
    completes: Seq<CompleteView>,
    now: VaultView,
    now_images: Seq<Seq<u8>>,
)
    requires
        v.sound(images),
        delivered(v, images, blob, chunks, completes, now, now_images),
    ensures
        now.sound(now_images),
        now.blobs == v.blobs,
{
    assert forall|i: int| 0 <= i < now.blobs.len() implies (#[trigger] now.blobs[i]).consistent(
        now_images[i],
    ) by {
        assert(v.blobs[i].consistent(images[i]));
    }
}

/// Delivery keeps a vault current on a file, whatever is delivered.
pub proof fn law_delivery_keeps_currency(
    v: VaultView,
    images: Seq<Seq<u8>>,
    blob: int,
    chunks: Seq<NewChunkView>,
    completes: Seq<CompleteView>,
    now: VaultView,
    now_images: Seq<Seq<u8>>,
    file_id: Seq<u8>,
    count: int,
)
    requires
        v.current_on(images, file_id, count),
        delivered(v, images, blob, chunks, completes, now, now_images),
    ensures
        now.current_on(now_images, file_id, count),
        now.blobs == v.blobs,
{
    let id = v.blobs[blob].blob_id;
    let entries = v.blobs[blob].entries(now_images[blob]);
    law_delivery_keeps_soundness(v, images, blob, chunks, completes, now, now_images);
    assert forall|i: int| 0 <= i < now.blobs.len() implies #[trigger] now.knows_file(
        i,
        now_images[i],
        file_id,
        count,
    ) by {
        lemma_blob_index_replaced(v.index, id, entries, v.blobs[i].blob_id);
        if i != blob {
            assert(v.knows_file(i, images[i], file_id, count));
            if i < blob {
                assert(v.blobs[i].blob_id != v.blobs[blob].blob_id);
            } else {
                assert(v.blobs[blob].blob_id != v.blobs[i].blob_id);
            }
        }
    }
    lemma_delivery_listing(v, images, blob, chunks, completes, now, now_images, file_id, count);
    let tail = data_tail_of(v.blobs[blob].entries(images[blob]).chunks);
    let fresh = locate_chunks(id, entries_at(chunks, tail));
    let before = v.index.file_chunks(file_id);
    let listed = now.index.file_chunks(file_id);
    assert forall|k: int| 0 <= k < listed.len() implies position_of(
        now.blobs,
        (#[trigger] listed[k]).blob_id,
        0,
    ) is Some by {
        let chunk = listed[k];
        assert(listed.contains(chunk));
        lemma_contains_concat(before, fresh.filter(of_file(file_id)), chunk);
        if before.contains(chunk) {
            let j = choose|j: int| 0 <= j < before.len() && before[j] == chunk;
            assert(position_of(v.blobs, before[j].blob_id, 0) is Some);
        } else {
            lemma_filter_members(fresh, of_file(file_id), chunk);
            lemma_own_position(v.blobs, blob, 0);
        }
    }
    let sent = locate_completes(id, completes);
    let marks_before = v.index.completes_from(file_id, count);
    let marks = now.index.completes_from(file_id, count);
    assert forall|k: int| 0 <= k < marks.len() implies position_of(
        now.blobs,
        (#[trigger] marks[k]).blob_id,
        0,
    ) is Some by {
        let mark = marks[k];
        assert(marks.contains(mark));
        lemma_contains_concat(marks_before, sent.filter(counting(file_id, count)), mark);
        if marks_before.contains(mark) {
            let j = choose|j: int| 0 <= j < marks_before.len() && marks_before[j] == mark;
            assert(position_of(v.blobs, marks_before[j].blob_id, 0) is Some);
        } else {
            lemma_filter_members(sent, counting(file_id, count), mark);
            lemma_own_position(v.blobs, blob, 0);
        }
    }
}

/// Every chunk that a vault knows of, of a file on which it is current, reads as it should.
pub proof fn law_known_chunks_are_readable(
    v: VaultView,
    images: Seq<Seq<u8>>,
    chunk: LocatedChunk,
    count: int,
)
    requires
        v.current_on(images, chunk.entry.file_id, count),
        v.index.chunks.contains(chunk),
    ensures
        v.readable(images, chunk),
        position_of(v.blobs, chunk.blob_id, 0) matches Some(i) && v.blobs[i].blob_id
            == chunk.blob_id && v.blobs[i].entries(images[i]).chunks.contains(chunk.entry),
{
    let file_id = chunk.entry.file_id;
    let p = of_file(file_id);
    let listed = v.index.file_chunks(file_id);
    lemma_filter_members(v.index.chunks, p, chunk);
    assert(listed.contains(chunk));
    let k = choose|k: int| 0 <= k < listed.len() && listed[k] == chunk;
    assert(position_of(v.blobs, v.index.file_chunks(file_id)[k].blob_id, 0) is Some);
    let i = position_of(v.blobs, chunk.blob_id, 0)->0;
    lemma_position(v.blobs, chunk.blob_id, 0);
    let b = v.blobs[i];
    let entries = b.entries(images[i]).chunks;
    assert(v.knows_file(i, images[i], file_id, count));
    let here = |c: LocatedChunk| c.blob_id == b.blob_id;
    lemma_filter_members(v.index.chunks, here, chunk);
    lemma_filter_members(v.index.chunks.filter(here), p, chunk);
    let located = locate_chunks(b.blob_id, entries);
    assert(located.filter(p).contains(chunk));
    lemma_filter_members(located, p, chunk);
    let e = choose|e: int| 0 <= e < located.len() && located[e] == chunk;
    assert(entries[e] == chunk.entry);
    assert(v.blobs[i].consistent(images[i]));
    assert(b.on_disk(b.entries(images[i]).chunks[e], images[i]));
}

/// What a delivery does to the listing of a file: the chunks that were sent come to those that were
/// listed, and so do the markers.
pub proof fn lemma_delivery_listing(
    v: VaultView,
    images: Seq<Seq<u8>>,
    blob: int,
    chunks: Seq<NewChunkView>,
    completes: Seq<CompleteView>,
    now: VaultView,
    now_images: Seq<Seq<u8>>,
    file_id: Seq<u8>,
    count: int,
)
    requires
        v.current_on(images, file_id, count),
        delivered(v, images, blob, chunks, completes, now, now_images),
    ensures
        ({
            let id = v.blobs[blob].blob_id;
            let tail = data_tail_of(v.blobs[blob].entries(images[blob]).chunks);
            let fresh = locate_chunks(id, entries_at(chunks, tail));
            let marks = locate_completes(id, completes);
            &&& same_members(
                now.index.file_chunks(file_id),
                v.index.file_chunks(file_id) + fresh.filter(of_file(file_id)),
            )
            &&& same_members(
                now.index.completes_from(file_id, count),
                v.index.completes_from(file_id, count) + marks.filter(counting(file_id, count)),
            )
        }),
{
    let b = v.blobs[blob];
    let id = b.blob_id;
    let old = b.entries(images[blob]);
    let tail = data_tail_of(old.chunks);
    assert(v.knows_file(blob, images[blob], file_id, count));
    let p = of_file(file_id);
    let q = |c: LocatedChunk| c.blob_id == id;
    let not_q = |c: LocatedChunk| c.blob_id != id;
    let all = v.index.chunks;
    let fresh = locate_chunks(id, entries_at(chunks, tail));
    assert((|c: LocatedChunk| !q(c)) =~= not_q);
    lemma_filter_parts(all, q, p);
    let known = locate_chunks(id, old.chunks);
    assert(locate_chunks(id, b.entries(now_images[blob]).chunks) =~= known + fresh);
    Seq::filter_distributes_over_add(known, fresh, p);
    Seq::filter_distributes_over_add(all.filter(not_q), known + fresh, p);
    let parts = all.filter(not_q).filter(p) + known.filter(p);
    assert(now.index.file_chunks(file_id) =~= parts + fresh.filter(p));
    lemma_same_members_extend(all.filter(p), parts, fresh.filter(p));

    let cp = counting(file_id, count);
    let cq = |c: LocatedComplete| c.blob_id == id;
    let not_cq = |c: LocatedComplete| c.blob_id != id;
    let marks = locate_completes(id, completes);
    let all_marks = v.index.completed_files;
    assert((|c: LocatedComplete| !cq(c)) =~= not_cq);
    lemma_filter_parts(all_marks, cq, cp);
    let known_marks = locate_completes(id, old.completed_files);
    assert(locate_completes(id, b.entries(now_images[blob]).completed_files) =~= known_marks
        + marks);
    Seq::filter_distributes_over_add(known_marks, marks, cp);
    Seq::filter_distributes_over_add(all_marks.filter(not_cq), known_marks + marks, cp);
    let mark_parts = all_marks.filter(not_cq).filter(cp) + known_marks.filter(cp);
    assert(now.index.completes_from(file_id, count) =~= mark_parts + marks.filter(cp));
    lemma_same_members_extend(all_marks.filter(cp), mark_parts, marks.filter(cp));
}

proof fn lemma_same_members_extend<A>(a: Seq<A>, b: Seq<A>, more: Seq<A>)
    requires
        same_members(a, b),
    ensures
        same_members(b + more, a + more),
{
    assert forall|x: A| #[trigger] (b + more).contains(x) <==> (a + more).contains(x) by {
        lemma_contains_concat(a, more, x);
        lemma_contains_concat(b, more, x);
        assert(a.contains(x) <==> b.contains(x));
    }
}

/// A delivery leaves every chunk that the vault knew of as it was, where the vault was current on
/// the chunk's file.
pub proof fn law_delivery_keeps_chunks(
    v: VaultView,
    images: Seq<Seq<u8>>,
    blob: int,
    chunks: Seq<NewChunkView>,
    completes: Seq<CompleteView>,
    now: VaultView,
    now_images: Seq<Seq<u8>>,
    chunk: LocatedChunk,
    count: int,
)
    requires
        v.current_on(images, chunk.entry.file_id, count),
        delivered(v, images, blob, chunks, completes, now, now_images),
        v.index.chunks.contains(chunk),
    ensures
        now.chunk_contents(now_images, chunk) == v.chunk_contents(images, chunk),
{
    law_known_chunks_are_readable(v, images, chunk, count);
    let i = position_of(v.blobs, chunk.blob_id, 0)->0;
    lemma_position(v.blobs, chunk.blob_id, 0);
    if i == blob {
        let old = v.blobs[blob].entries(images[blob]).chunks;
        let e = choose|e: int| 0 <= e < old.len() && old[e] == chunk.entry;
        assert(v.blobs[blob].stored_chunk(old[e], now_images[blob]) == v.blobs[blob].stored_chunk(
            old[e],
            images[blob],
        ));
    }
}

/// The marker is there, and every other one counts fewer chunks.
pub open spec fn marked(marks: Seq<LocatedComplete>, marker: CompleteView) -> bool {
    &&& exists|i: int| 0 <= i < marks.len() && (#[trigger] marks[i]).entry == marker
    &&& forall|i: int|
        0 <= i < marks.len() ==> (#[trigger] marks[i]).entry == marker
            || marks[i].entry.total_chunks < marker.total_chunks
}

/// The marker that counts is one of the markers, and none counts more chunks.
pub proof fn lemma_latest(marks: Seq<LocatedComplete>)
    ensures
        latest(marks) is None <==> marks.len() == 0,
        latest(marks) matches Some(best) ==> marks.contains(best) && forall|i: int|
            0 <= i < marks.len() ==> (#[trigger] marks[i]).entry.total_chunks
                <= best.entry.total_chunks,
    decreases marks.len(),
{
    if marks.len() > 0 {
        let front = marks.drop_last();
        lemma_latest(front);
        let best = latest(marks)->0;
        if best == marks.last() {
            assert(marks[marks.len() - 1] == best);
        } else {
            let i = choose|i: int| 0 <= i < front.len() && front[i] == best;
            assert(marks[i] == best);
        }
        assert forall|i: int| 0 <= i < marks.len() implies (#[trigger] marks[i]).entry.total_chunks
            <= best.entry.total_chunks by {
            if i < front.len() {
                assert(front[i] == marks[i]);
            }
        }
    }
}

/// A marker that counts more chunks than the others is the one that counts.
pub proof fn lemma_marked_latest(marks: Seq<LocatedComplete>, marker: CompleteView)
    requires
        marked(marks, marker),
    ensures
        latest(marks) matches Some(best) && best.entry == marker,
{
    lemma_latest(marks);
    let best = latest(marks)->0;
    let i = choose|i: int| 0 <= i < marks.len() && (#[trigger] marks[i]).entry == marker;
    let j = choose|j: int| 0 <= j < marks.len() && marks[j] == best;
    assert(marks[i].entry.total_chunks <= best.entry.total_chunks);
    assert(marks[j].entry == marker || marks[j].entry.total_chunks < marker.total_chunks);
}

/// The order in which markers are listed matters neither to the count of the one that counts nor
/// to one that counts more than the others.
pub proof fn lemma_marks_in_any_order(
    a: Seq<LocatedComplete>,
    b: Seq<LocatedComplete>,
    marker: CompleteView,
)
    requires
        same_members(a, b),
    ensures
        latest(a) is None <==> latest(b) is None,
        latest(a) is Some ==> latest(a)->0.entry.total_chunks == latest(b)->0.entry.total_chunks,
        marked(a, marker) ==> marked(b, marker),
{
    lemma_latest(a);
    lemma_latest(b);
    if a.len() > 0 {
        let left = latest(a)->0;
        let right = latest(b)->0;
        assert(b.contains(left));
        assert(a.contains(right));
        let i = choose|i: int| 0 <= i < b.len() && b[i] == left;
        let j = choose|j: int| 0 <= j < a.len() && a[j] == right;
        assert(b[i].entry.total_chunks <= right.entry.total_chunks);
        assert(a[j].entry.total_chunks <= left.entry.total_chunks);
    }
    if marked(a, marker) {
        let i = choose|i: int| 0 <= i < a.len() && (#[trigger] a[i]).entry == marker;
        assert(a.contains(a[i]));
        assert(b.contains(a[i]));
        let j = choose|j: int| 0 <= j < b.len() && b[j] == a[i];
        assert(b[j].entry == marker);
        assert forall|k: int| 0 <= k < b.len() implies (#[trigger] b[k]).entry == marker
            || b[k].entry.total_chunks < marker.total_chunks by {
            assert(b.contains(b[k]));
            assert(a.contains(b[k]));
            let m = choose|m: int| 0 <= m < a.len() && a[m] == b[k];
            assert(a[m].entry == marker || a[m].entry.total_chunks < marker.total_chunks);
        }
    }
}

/// With no bound on the count, every marker of the file is meant.
pub proof fn lemma_counting_all(index: VaultIndexView, file_id: Seq<u8>)
    ensures
        index.completes_from(file_id, 0) == index.file_completes(file_id),
{
    let p = |c: LocatedComplete| c.entry.file_id == file_id;
    assert(counting(file_id, 0) =~= p);
}

/// A marker that counts enough and more than the others does so among all markers of the file and
/// among those that count enough.
pub proof fn lemma_marked_from(
    index: VaultIndexView,
    file_id: Seq<u8>,
    count: int,
    marker: CompleteView,
)
    requires
        marker.total_chunks >= count,
    ensures
        marked(index.file_completes(file_id), marker) <==> marked(
            index.completes_from(file_id, count),
            marker,
        ),
{
    let p = |c: LocatedComplete| c.entry.file_id == file_id;
    let cp = counting(file_id, count);
    let all = index.file_completes(file_id);
    let large = index.completes_from(file_id, count);
    assert forall|x: LocatedComplete| #[trigger] large.contains(x) <==> all.contains(x)
        && x.entry.total_chunks >= count by {
        lemma_filter_members(index.completed_files, p, x);
        lemma_filter_members(index.completed_files, cp, x);
    }
    if marked(all, marker) {
        let i = choose|i: int| 0 <= i < all.len() && (#[trigger] all[i]).entry == marker;
        assert(all.contains(all[i]));
        assert(large.contains(all[i]));
        let j = choose|j: int| 0 <= j < large.len() && large[j] == all[i];
        assert(large[j].entry == marker);
        assert forall|k: int| 0 <= k < large.len() implies (#[trigger] large[k]).entry == marker
            || large[k].entry.total_chunks < marker.total_chunks by {
            assert(large.contains(large[k]));
            let m = choose|m: int| 0 <= m < all.len() && all[m] == large[k];
            assert(all[m].entry == marker || all[m].entry.total_chunks < marker.total_chunks);
        }
    }
    if marked(large, marker) {
        let i = choose|i: int| 0 <= i < large.len() && (#[trigger] large[i]).entry == marker;
        assert(large.contains(large[i]));
        let j = choose|j: int| 0 <= j < all.len() && all[j] == large[i];
        assert(all[j].entry == marker);
        assert forall|k: int| 0 <= k < all.len() implies (#[trigger] all[k]).entry == marker
            || all[k].entry.total_chunks < marker.total_chunks by {
            assert(all.contains(all[k]));
            if all[k].entry.total_chunks >= count {
                assert(large.contains(all[k]));
                let m = choose|m: int| 0 <= m < large.len() && large[m] == all[k];
                assert(large[m].entry == marker || large[m].entry.total_chunks
                    < marker.total_chunks);
            }
        }
    }
}

/// Where some marker counts enough, the markers that count less do not matter to which one counts.
proof fn lemma_latest_from(index: VaultIndexView, file_id: Seq<u8>, count: int)
    requires
        index.completes_from(file_id, count).len() > 0,
    ensures
        index.latest_complete(file_id) matches Some(best) && best.entry.total_chunks == latest(
            index.completes_from(file_id, count),
        )->0.entry.total_chunks,
{
    let p = |c: LocatedComplete| c.entry.file_id == file_id;
    let cp = counting(file_id, count);
    let all = index.file_completes(file_id);
    let large = index.completes_from(file_id, count);
    lemma_latest(all);
    lemma_latest(large);
    let top = latest(large)->0;
    lemma_filter_members(index.completed_files, cp, top);
    lemma_filter_members(index.completed_files, p, top);
    assert(all.contains(top));
    let i = choose|i: int| 0 <= i < all.len() && all[i] == top;
    let best = latest(all)->0;
    assert(all[i].entry.total_chunks <= best.entry.total_chunks);
    lemma_filter_members(index.completed_files, p, best);
    lemma_filter_members(index.completed_files, cp, best);
    assert(large.contains(best));
    let j = choose|j: int| 0 <= j < large.len() && large[j] == best;
    assert(large[j].entry.total_chunks <= top.entry.total_chunks);
}

/// The file is in both vaults the same: its chunks in order, its size, what it holds, and its
/// markers that count at least so many chunks. Where there is such a marker, or all markers are
/// meant, it is complete in both or incomplete in both, and the marker that completes it in one
/// does so in the other.
pub open spec fn same_file(
    v: VaultView,
    images: Seq<Seq<u8>>,
    now: VaultView,
    now_images: Seq<Seq<u8>>,
    file_id: Seq<u8>,
    count: int,
) -> bool {
    &&& now.index.ordered(file_id) == v.index.ordered(file_id)
    &&& now.index.size(file_id) == v.index.size(file_id)
    &&& v.index.ordered(file_id) matches Ok(ordered) ==> now.contents(now_images, ordered)
        == v.contents(images, ordered)
    &&& same_members(
        now.index.completes_from(file_id, count),
        v.index.completes_from(file_id, count),
    )
    &&& count == 0 || v.index.completes_from(file_id, count).len() > 0
        ==> now.index.incompleteness(file_id) == v.index.incompleteness(file_id)
    &&& count == 0 && v.index.file_completes(file_id).len() <= 1
        ==> now.index.latest_complete(file_id) == v.index.latest_complete(file_id)
    &&& forall|marker: CompleteView|
        marker.total_chunks >= count && marked(v.index.file_completes(file_id), marker)
            ==> #[trigger] marked(now.index.file_completes(file_id), marker)
}

/// What makes a file the same: its chunks, its larger markers, and what the chunks read as.
pub proof fn lemma_same_file(
    v: VaultView,
    images: Seq<Seq<u8>>,
    now: VaultView,
    now_images: Seq<Seq<u8>>,
    file_id: Seq<u8>,
    count: int,
)
    requires
        same_members(now.index.file_chunks(file_id), v.index.file_chunks(file_id)),
        same_members(
            now.index.completes_from(file_id, count),
            v.index.completes_from(file_id, count),
        ),
        forall|chunk: LocatedChunk|
            v.index.file_chunks(file_id).contains(chunk) ==> #[trigger] now.chunk_contents(
                now_images,
                chunk,
            ) == v.chunk_contents(images, chunk),
    ensures
        same_file(v, images, now, now_images, file_id, count),
{
    law_listing_order_does_not_matter(now.index, v.index, file_id);
    if v.index.ordered(file_id) is Ok {
        let ordered = v.index.ordered(file_id)->Ok_0;
        lemma_by_number(v.index.file_chunks(file_id));
        assert forall|k: int| 0 <= k < ordered.len() implies now.chunk_contents(
            now_images,
            #[trigger] ordered[k],
        ) == v.chunk_contents(images, ordered[k]) by {
            assert(ordered.contains(ordered[k]));
        }
        assert(now.plaintexts(now_images, ordered) =~= v.plaintexts(images, ordered));
    }
    let before = v.index.completes_from(file_id, count);
    let after = now.index.completes_from(file_id, count);
    assert(same_members(before, after));
    assert forall|marker: CompleteView|
        marker.total_chunks >= count && marked(
            v.index.file_completes(file_id),
            marker,
        ) implies #[trigger] marked(now.index.file_completes(file_id), marker) by {
        lemma_marked_from(v.index, file_id, count, marker);
        lemma_marked_from(now.index, file_id, count, marker);
        lemma_marks_in_any_order(before, after, marker);
    }
    let any = CompleteView { file_id, total_chunks: 0, full_content_hash: file_id };
    lemma_marks_in_any_order(before, after, any);
    if before.len() > 0 {
        lemma_latest_from(v.index, file_id, count);
        lemma_latest_from(now.index, file_id, count);
        lemma_latest(before);
    }
    if count == 0 {
        lemma_counting_all(v.index, file_id);
        lemma_counting_all(now.index, file_id);
        if before.len() == 1 {
            assert(after.contains(after[0]));
            assert(before.contains(after[0]));
            assert(after =~= before);
        } else if before.len() == 0 {
            assert(after =~= before);
        }
    }
}

/// The chunks are of other files, and so are the markers, or they count fewer chunks than this.
pub open spec fn of_others(
    chunks: Seq<NewChunkView>,
    completes: Seq<CompleteView>,
    file_id: Seq<u8>,
    count: int,
) -> bool {
    &&& forall|i: int| 0 <= i < chunks.len() ==> (#[trigger] chunks[i]).file_id != file_id
    &&& forall|i: int|
        0 <= i < completes.len() ==> (#[trigger] completes[i]).file_id != file_id
            || completes[i].total_chunks < count
}

/// Storing a file leaves every other file as it was.
pub proof fn law_delivery_keeps_other_files(
    v: VaultView,
    images: Seq<Seq<u8>>,
    blob: int,
    chunks: Seq<NewChunkView>,
    completes: Seq<CompleteView>,
    now: VaultView,
    now_images: Seq<Seq<u8>>,
    file_id: Seq<u8>,
    count: int,
)
    requires
        v.current_on(images, file_id, count),
        delivered(v, images, blob, chunks, completes, now, now_images),
        of_others(chunks, completes, file_id, count),
    ensures
        same_file(v, images, now, now_images, file_id, count),
{
    let b = v.blobs[blob];
    let tail = data_tail_of(b.entries(images[blob]).chunks);
    let fresh = locate_chunks(b.blob_id, entries_at(chunks, tail));
    let marks = locate_completes(b.blob_id, completes);
    let p = of_file(file_id);
    let cp = counting(file_id, count);
    lemma_delivery_listing(v, images, blob, chunks, completes, now, now_images, file_id, count);
    assert forall|i: int| 0 <= i < fresh.len() implies !p(#[trigger] fresh[i]) by {
        assert(chunks[i].file_id != file_id);
    }
    assert forall|i: int| 0 <= i < marks.len() implies !cp(#[trigger] marks[i]) by {
        assert(completes[i].file_id != file_id || completes[i].total_chunks < count);
    }
    lemma_filter_none(fresh, p);
    lemma_filter_none(marks, cp);
    let before = v.index.file_chunks(file_id);
    assert(before + fresh.filter(p) =~= before);
    let old_marks = v.index.completes_from(file_id, count);
    assert(old_marks + marks.filter(cp) =~= old_marks);
    assert forall|chunk: LocatedChunk| before.contains(chunk) implies #[trigger] now.chunk_contents(
        now_images,
        chunk,
    ) == v.chunk_contents(images, chunk) by {
        lemma_filter_members(v.index.chunks, p, chunk);
        law_delivery_keeps_chunks(
            v,
            images,
            blob,
            chunks,
            completes,
            now,
            now_images,
            chunk,
            count,
        );
    }
    lemma_same_file(v, images, now, now_images, file_id, count);
}

} // verus!
