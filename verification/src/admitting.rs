//! When a write is accepted, where it goes, and in what order it reaches the file.

use vstd::prelude::*;

use crate::appending::{law_write_appends, Appending};
use crate::blob::{data_tail_of, BlobConfig, BlobView, LocatorView};
use crate::commit::{
    added_entries, body_script, commit_script, entries_at, frames_len, joined,
    lemma_frames_len_grows, placement, prepare_refusal, prepared_entries, run_writes, Placement,
    Sealed,
};
use crate::consistency::{index_bytes, law_transaction_appends, lemma_run_writes, slots_in};
use crate::crypto::blake2b256_digest;
use crate::error::VaultError;
use crate::index::{law_transaction_decodes, transaction_bytes, NewChunkView};
use crate::storage::{after_all, honest, lemma_after_all_concat, write_at, Reply, RequestView, Step};
use crate::types::{ChunkView, CompleteView};
use crate::write::{Prepared, WriteChunks, WriteChunksResult, WriteStage};

verus! {

/// A transaction goes somewhere unless there is a reason: the index does not lie inside the file,
/// the generations are used up, the index would grow beyond the keystream, or it would have to move
/// beyond the largest offset.
///
/// The index stays where it is, and the file as long as it is, where the frames fit in front of it
/// and the entries behind it. Else it moves to the end of the file, or further where the data and
/// the padding reach further, and the file grows by the padding behind it.
pub proof fn law_transaction_goes_where_it_fits(
    config: BlobConfig,
    locator: LocatorView,
    tail: int,
    chunk_len: int,
    entry_len: int,
    eof: int,
)
    requires
        0 <= tail,
        0 <= chunk_len,
        0 <= entry_len,
        0 <= eof <= u64::MAX,
    ensures
        ({
            let index_end = locator.index_offset + locator.index_length;
            let new_len = locator.index_length + entry_len;
            let fits = (chunk_len == 0 || tail + chunk_len <= locator.index_offset) && index_end
                + entry_len <= eof;
            let behind = tail + chunk_len + config.relocation_leading_padding;
            let moved_fits = behind + new_len + config.relocation_trailing_padding <= u64::MAX
                && eof + new_len + config.relocation_trailing_padding <= u64::MAX;
            let accepted = index_end <= eof && locator.generation < u64::MAX && new_len
                <= 274_877_906_880 && (fits || moved_fits);
            match placement(config, locator, tail, chunk_len, entry_len, eof) {
                Ok(place) => {
                    &&& accepted
                    &&& place.relocate == !fits
                    &&& fits ==> place.index_offset == locator.index_offset && place.filled_len
                        == eof
                    &&& !fits ==> {
                        &&& place.index_offset >= eof
                        &&& place.index_offset >= behind
                        &&& place.index_offset == eof || place.index_offset == behind
                        &&& place.filled_len == place.index_offset + new_len
                            + config.relocation_trailing_padding
                    }
                },
                Err(error) => {
                    &&& !accepted
                    &&& error == if eof < index_end <= u64::MAX {
                        VaultError::IndexChainBroken
                    } else {
                        VaultError::IntegerOverflow
                    }
                },
            }
        }),
{
}

/// What the frames of the chunks take: each its plaintext and forty bytes.
pub open spec fn frame_bytes(chunks: Seq<NewChunkView>) -> int
    decreases chunks.len(),
{
    if chunks.len() == 0 {
        0
    } else {
        chunks[0].plaintext.len() + 40 + frame_bytes(chunks.skip(1))
    }
}

proof fn lemma_frame_bytes(chunks: Seq<NewChunkView>)
    ensures
        frame_bytes(chunks) == frames_len(chunks),
        frame_bytes(chunks) >= 0,
        chunks.len() > 0 ==> frame_bytes(chunks) > 0 && frame_bytes(chunks) == frame_bytes(
            chunks.drop_last(),
        ) + chunks.last().plaintext.len() + 40,
    decreases chunks.len(),
{
    if chunks.len() > 0 {
        let rest = chunks.skip(1);
        lemma_frame_bytes(rest);
        if chunks.len() == 1 {
            assert(chunks.drop_last() =~= Seq::empty());
            assert(rest =~= Seq::empty());
        } else {
            assert(rest.drop_last() =~= chunks.drop_last().skip(1));
            assert(rest.last() == chunks.last());
            assert(chunks.drop_last()[0] == chunks[0]);
        }
        lemma_frame_bytes(chunks.drop_last());
    }
}

/// There is room for a write of these chunks and markers on a file: every chunk can be sealed, the
/// index fits into memory and the keystream, and no offset overflows, even where the index moves.
pub open spec fn has_room(
    b: BlobView,
    image: Seq<u8>,
    chunks: Seq<NewChunkView>,
    completes: Seq<CompleteView>,
) -> bool {
    let locator = b.active(image);
    let new_len = locator.index_length + 73 * chunks.len() + 57 * completes.len();
    let data_end = data_tail_of(b.entries(image).chunks) + frame_bytes(chunks);
    let behind = data_end + b.config.relocation_leading_padding;
    &&& locator.index_length <= usize::MAX
    &&& locator.generation < u64::MAX
    &&& new_len <= 274_877_906_880
    &&& behind + new_len + b.config.relocation_trailing_padding <= u64::MAX
    &&& image.len() + new_len + b.config.relocation_trailing_padding <= u64::MAX
    &&& forall|i: int|
        0 <= i < chunks.len() ==> (#[trigger] chunks[i]).plaintext.len() <= 274_877_906_816
}

proof fn lemma_not_refused(chunks: Seq<NewChunkView>, tail: int)
    requires
        tail + frame_bytes(chunks) <= u64::MAX,
        forall|i: int|
            0 <= i < chunks.len() ==> (#[trigger] chunks[i]).plaintext.len() <= 274_877_906_816,
    ensures
        prepare_refusal(chunks, tail) is None,
    decreases chunks.len(),
{
    lemma_frame_bytes(chunks);
    if chunks.len() > 0 {
        let front = chunks.drop_last();
        assert forall|i: int| 0 <= i < front.len() implies (#[trigger] front[i]).plaintext.len()
            <= 274_877_906_816 by {
            assert(front[i] == chunks[i]);
        }
        lemma_not_refused(front, tail);
        assert(chunks[chunks.len() - 1].plaintext.len() <= 274_877_906_816);
    }
}

/// The frames of a transaction stand end to end from the end of the data on, and every entry says
/// where its frame stands, how long its plaintext is, and what it hashes to.
pub proof fn law_frames_stand_end_to_end(chunks: Seq<NewChunkView>, tail: int, i: int)
    requires
        0 <= tail,
        0 <= i < chunks.len(),
        tail + frame_bytes(chunks) <= u64::MAX,
    ensures
        ({
            let entry = entries_at(chunks, tail)[i];
            &&& entries_at(chunks, tail).len() == chunks.len()
            &&& entry.file_id == chunks[i].file_id
            &&& entry.sequence_number == chunks[i].sequence_number
            &&& entry.offset_in_blob == tail + frame_bytes(chunks.take(i))
            &&& entry.plaintext_length == chunks[i].plaintext.len()
            &&& entry.content_hash == blake2b256_digest(chunks[i].plaintext)
        }),
{
    lemma_frame_bytes(chunks);
    lemma_frame_bytes(chunks.take(i));
    lemma_frame_bytes(chunks.take(i + 1));
    lemma_frames_len_grows(chunks, i);
    lemma_frames_len_grows(chunks, i + 1);
    assert(chunks.take(i + 1).drop_last() =~= chunks.take(i));
    assert(chunks.take(i + 1).last() == chunks[i]);
}

/// A transaction is refused for the first chunk that cannot be sealed in its place: because it is
/// longer than any chunk, because the cipher takes no message of that length, or because its frame
/// would end beyond the largest offset.
pub proof fn law_first_bad_chunk_refuses(chunks: Seq<NewChunkView>, tail: int, bad: int)
    requires
        0 <= bad < chunks.len(),
        tail + frame_bytes(chunks.take(bad)) <= u64::MAX,
        forall|i: int|
            0 <= i < bad ==> (#[trigger] chunks[i]).plaintext.len() <= 274_877_906_816,
        chunks[bad].plaintext.len() > 274_877_906_816 || tail + frame_bytes(chunks.take(bad + 1))
            > u64::MAX,
    ensures
        prepare_refusal(chunks, tail) == Some(
            if chunks[bad].plaintext.len() > 274_877_906_880 {
                VaultError::InvalidChunkSize
            } else if chunks[bad].plaintext.len() > 274_877_906_816 {
                VaultError::AeadEncryptFailed
            } else {
                VaultError::IntegerOverflow
            },
        ),
    decreases chunks.len(),
{
    let front = chunks.drop_last();
    if bad == chunks.len() - 1 {
        assert(chunks.take(bad) =~= front);
        assert(chunks.take(bad + 1) =~= chunks);
        assert forall|i: int| 0 <= i < front.len() implies (#[trigger] front[i]).plaintext.len()
            <= 274_877_906_816 by {
            assert(front[i] == chunks[i]);
        }
        lemma_not_refused(front, tail);
        lemma_frame_bytes(chunks);
    } else {
        assert(front.take(bad) =~= chunks.take(bad));
        assert(front.take(bad + 1) =~= chunks.take(bad + 1));
        assert forall|i: int| 0 <= i < bad implies (#[trigger] front[i]).plaintext.len()
            <= 274_877_906_816 by {
            assert(front[i] == chunks[i]);
        }
        law_first_bad_chunk_refuses(front, tail, bad);
    }
}

proof fn lemma_prepared_len(operation: WriteChunks, b: BlobView, prepared: Prepared)
    requires
        operation.prepared(b, prepared),
    ensures
        transaction_bytes(
            added_entries(
                operation.new_chunks(),
                operation.new_completes(),
                prepared.data_tail as int,
            ),
        ).len() == 73 * operation.new_chunks().len() + 57 * operation.new_completes().len(),
{
    let tail = prepared.data_tail as int;
    let added = added_entries(operation.new_chunks(), operation.new_completes(), tail);
    assert forall|i: int| 0 <= i < added.chunks.len() implies (
    #[trigger] added.chunks[i]).sized() by {
        assert(added.chunks[i] == prepared_entries(prepared.plan.chunks@)[i]);
        assert(added.chunks[i] == prepared.plan.chunks@[i].entry@);
    }
    assert forall|i: int| 0 <= i < added.completed_files.len() implies (
    #[trigger] added.completed_files[i]).sized() by {
        assert(added.completed_files[i] == operation.completed_files@[i]@);
    }
    law_transaction_decodes(added);
}

/// On a consistent file that has room for it and answers as it should, a write is refused at no
/// step.
pub proof fn law_write_with_room_succeeds(
    b: BlobView,
    base: Seq<u8>,
    image: Seq<u8>,
    operation: WriteChunks,
    reply: Reply,
    step: Step<WriteChunks, WriteChunksResult>,
)
    requires
        b.consistent(base),
        has_room(b, base, operation.new_chunks(), operation.new_completes()),
        operation.valid(b),
        operation.tracks(b, base, image),
        honest(image, operation.asks(), reply),
        operation.on_reply(b, reply, step),
    ensures
        !(step matches Step::Done(Err(_))),
{
    let chunks = operation.new_chunks();
    let locator = b.active(base);
    let tail = data_tail_of(b.entries(base).chunks);
    lemma_frame_bytes(chunks);
    lemma_not_refused(chunks, tail);
    match operation.stage {
        WriteStage::Lock => {},
        WriteStage::Slots => {
            assert(reply->Bytes_0@ =~= slots_in(base));
            if locator.index_length == 0 {
                assert(index_bytes(locator, base) =~= Seq::empty());
            }
        },
        WriteStage::Index(found) => {
            assert(reply->Bytes_0@ =~= index_bytes(locator, base));
        },
        WriteStage::Length(prepared) => {
            lemma_prepared_len(operation, b, prepared);
        },
        WriteStage::Play(play) => {
            assert(play.requests@[play.next as int]@ is Write || play.requests@[play.next as int]@
                is Sync);
        },
    }
}

/// A write that succeeds leaves the index where it is and the file as long as it is, where the
/// frames fit in front of the index and the entries behind it. Else the index moves behind the end
/// of the file, with the configured padding on both sides.
pub proof fn law_write_grows_the_file_only_where_it_must(b: BlobView, a: Appending)
    requires
        a.carried_out(b),
        b.index_clear(a.base()),
    ensures
        ({
            let chunks = a.operations[0].new_chunks();
            let entry_len = 73 * chunks.len() + 57 * a.operations[0].new_completes().len();
            let was = b.active(a.base());
            let is = b.active(a.now());
            let data_end = data_tail_of(b.entries(a.base()).chunks) + frame_bytes(chunks);
            let fits = (chunks.len() == 0 || data_end <= was.index_offset) && was.index_offset
                + was.index_length + entry_len <= a.base().len();
            &&& is.index_length == was.index_length + entry_len
            &&& fits ==> is.index_offset == was.index_offset && a.now().len() == a.base().len()
            &&& !fits ==> {
                &&& is.index_offset >= a.base().len()
                &&& is.index_offset >= data_end + b.config.relocation_leading_padding
                &&& is.index_offset == a.base().len() || is.index_offset == data_end
                    + b.config.relocation_leading_padding
                &&& a.now().len() == is.index_offset + is.index_length
                    + b.config.relocation_trailing_padding
            }
        }),
{
    law_write_appends(b, a);
    let chunks = a.operations[0].new_chunks();
    let completes = a.operations[0].new_completes();
    let (place, sealed) = choose|place: Placement, sealed: Sealed| #[trigger]
        b.wrote(a.base(), chunks, completes, place, sealed, a.now());
    let tail = data_tail_of(b.entries(a.base()).chunks);
    let added = added_entries(chunks, completes, tail);
    law_transaction_appends(b, a.base(), chunks, completes, place, sealed);
    law_transaction_decodes(added);
    lemma_frame_bytes(chunks);
    lemma_tail_natural(b, a.base());
    law_transaction_goes_where_it_fits(
        b.config,
        b.active(a.base()),
        tail,
        frames_len(chunks),
        transaction_bytes(added).len() as int,
        a.base().len() as int,
    );
    assert(place.index_offset <= u64::MAX);
}

proof fn lemma_tail_natural(b: BlobView, image: Seq<u8>)
    ensures
        data_tail_of(b.entries(image).chunks) >= 4096,
{
    lemma_tail_floor(b.entries(image).chunks);
}

proof fn lemma_tail_floor(chunks: Seq<ChunkView>)
    ensures
        data_tail_of(chunks) >= 4096,
    decreases chunks.len(),
{
    if chunks.len() > 0 {
        lemma_tail_floor(chunks.drop_last());
    }
}

/// The request writes behind the front matter.
pub open spec fn behind_front_matter(request: RequestView) -> bool {
    request matches RequestView::Write { offset, .. } ==> offset >= 4096
}

proof fn lemma_run_behind(offset: int, pieces: Seq<Seq<u8>>)
    requires
        4096 <= offset,
        offset + joined(pieces).len() <= u64::MAX,
    ensures
        forall|i: int|
            0 <= i < run_writes(offset, pieces).len() ==> behind_front_matter(
                #[trigger] run_writes(offset, pieces)[i],
            ) && run_writes(offset, pieces)[i] is Write,
    decreases pieces.len(),
{
    if pieces.len() > 0 {
        let front = pieces.drop_last();
        lemma_run_behind(offset, front);
        let run = run_writes(offset, pieces);
        assert forall|i: int| 0 <= i < run.len() implies behind_front_matter(#[trigger] run[i])
            && run[i] is Write by {
            if i < run.len() - 1 {
                assert(run[i] == run_writes(offset, front)[i]);
            }
        }
    }
}

/// A transaction is committed by one write, of the slot that is not in force, after everything else
/// has been written and synced, and is over once that write is synced too. Nothing else is written
/// into the front matter.
pub proof fn law_slot_commits(
    place: Placement,
    locator: LocatorView,
    tail: int,
    eof: int,
    sealed: Sealed,
)
    requires
        locator.slot_index <= 1,
        4096 <= tail,
        4096 <= eof,
        4096 <= place.index_offset,
        tail + joined(sealed.frames).len() <= u64::MAX,
        eof + joined(sealed.fill).len() <= u64::MAX,
        place.index_offset + sealed.ciphertext.len() <= u64::MAX,
    ensures
        ({
            let script = commit_script(place, locator, tail, eof, sealed);
            let n = script.len();
            &&& n >= 3
            &&& script[n - 1] is Sync
            &&& script[n - 2] == (RequestView::Write {
                offset: if locator.slot_index == 0 {
                    3072
                } else {
                    2048
                },
                bytes: sealed.slot,
            })
            &&& script[n - 3] is Sync
            &&& forall|i: int|
                0 <= i < n - 2 ==> behind_front_matter(#[trigger] script[i]) && (script[i] is Write
                    || script[i] is Sync)
        }),
{
    let script = commit_script(place, locator, tail, eof, sealed);
    let run = run_writes(tail, sealed.frames);
    let fill = run_writes(eof, sealed.fill);
    let body = body_script(place, tail, eof, sealed);
    lemma_run_behind(tail, sealed.frames);
    lemma_run_behind(eof, sealed.fill);
    assert(body.len() >= 1 && body.last() is Sync);
    assert(script[script.len() - 3] == body.last());
    assert forall|i: int| 0 <= i < script.len() - 2 implies behind_front_matter(
        #[trigger] script[i],
    ) && (script[i] is Write || script[i] is Sync) by {
        assert(script[i] == body[i]);
        if place.relocate {
            if i < fill.len() {
                assert(body[i] == fill[i]);
            } else if i >= fill.len() + 4 && i < fill.len() + 4 + run.len() {
                assert(body[i] == run[i - fill.len() - 4]);
            }
        } else if i < run.len() {
            assert(body[i] == run[i]);
        }
    }
}

/// Where the index moves, it stands in its new place with the new entries, and is synced, before
/// anything is written in front of the old end of the file.
pub proof fn law_index_moves_before_frames_are_written(
    image: Seq<u8>,
    place: Placement,
    locator: LocatorView,
    tail: int,
    sealed: Sealed,
)
    requires
        place.relocate,
        image.len() <= place.index_offset,
        image.len() + joined(sealed.fill).len() <= u64::MAX,
        place.index_offset + sealed.ciphertext.len() + sealed.entries.len() <= image.len()
            + joined(sealed.fill).len(),
    ensures
        ({
            let eof = image.len() as int;
            let script = commit_script(place, locator, tail, eof, sealed);
            exists|m: int|
                0 < m <= script.len() && #[trigger] script[m - 1] is Sync && (forall|i: int|
                    0 <= i < m ==> (#[trigger] script[i] matches RequestView::Write {
                        offset,
                        ..
                    } ==> offset >= eof)) && after_all(image, script.take(m)).subrange(
                    place.index_offset,
                    place.index_offset + sealed.ciphertext.len() + sealed.entries.len(),
                ) == sealed.ciphertext + sealed.entries
        }),
{
    let eof = image.len() as int;
    let script = commit_script(place, locator, tail, eof, sealed);
    let fill = run_writes(eof, sealed.fill);
    let ct = sealed.ciphertext;
    let w_index = RequestView::Write { offset: place.index_offset as u64, bytes: ct };
    let w_entries = RequestView::Write {
        offset: (place.index_offset + ct.len()) as u64,
        bytes: sealed.entries,
    };
    let moving = seq![w_index, RequestView::Sync, w_entries, RequestView::Sync];
    let m = fill.len() as int + 4;
    assert(script.take(m) =~= fill + moving);
    lemma_run_writes(image, eof, sealed.fill);
    lemma_after_all_concat(image, fill, moving);
    let filled = write_at(image, eof, joined(sealed.fill));
    let done = write_at(
        write_at(filled, place.index_offset, ct),
        place.index_offset + ct.len(),
        sealed.entries,
    );
    assert(after_all(filled, moving) == done) by {
        reveal_with_fuel(after_all, 5);
        assert(moving.drop_last() =~= seq![w_index, RequestView::Sync, w_entries]);
        assert(moving.drop_last().drop_last() =~= seq![w_index, RequestView::Sync]);
        assert(moving.drop_last().drop_last().drop_last() =~= seq![w_index]);
        assert(moving.drop_last().drop_last().drop_last().drop_last() =~= Seq::empty());
    }
    assert(done.subrange(
        place.index_offset,
        place.index_offset + ct.len() + sealed.entries.len(),
    ) =~= ct + sealed.entries);
    lemma_run_not_before(eof, sealed.fill);
    assert(script[m - 1] is Sync);
    assert forall|i: int| 0 <= i < m implies (#[trigger] script[i] matches RequestView::Write {
        offset,
        ..
    } ==> offset >= eof) by {
        assert(script[i] == (fill + moving)[i]);
        if i < fill.len() {
            assert(script[i] == fill[i]);
        }
    }
}

proof fn lemma_run_not_before(offset: int, pieces: Seq<Seq<u8>>)
    requires
        0 <= offset,
        offset + joined(pieces).len() <= u64::MAX,
    ensures
        forall|i: int|
            0 <= i < run_writes(offset, pieces).len() ==> (#[trigger] run_writes(
                offset,
                pieces,
            )[i] matches RequestView::Write { offset: at, .. } ==> at >= offset),
    decreases pieces.len(),
{
    if pieces.len() > 0 {
        let front = pieces.drop_last();
        lemma_run_not_before(offset, front);
        let run = run_writes(offset, pieces);
        assert forall|i: int| 0 <= i < run.len() implies (#[trigger] run[i] matches
            RequestView::Write { offset: at, .. } ==> at >= offset) by {
            if i < run.len() - 1 {
                assert(run[i] == run_writes(offset, front)[i]);
            }
        }
    }
}

/// A write takes the lock before it reads or writes anything, and reads what is in force only then.
pub proof fn law_write_locks_first(b: BlobView, a: Appending)
    requires
        a.carried_out(b),
    ensures
        a.operations[0].asks() is Lock,
        forall|k: int| 0 < k < a.operations.len() ==> !((#[trigger] a.operations[k]).asks() is Lock),
        a.operations.len() > 1,
        a.operations[1].asks() == (RequestView::Read { offset: 2048, length: 2048 }),
{
    assert(a.operations[0].valid(b));
    assert forall|k: int| 0 < k < a.operations.len() implies !((
    #[trigger] a.operations[k]).asks() is Lock) by {
        lemma_locked(b, a, k);
    }
    lemma_locked(b, a, 1);
}

proof fn lemma_locked(b: BlobView, a: Appending, k: int)
    requires
        a.carried_out(b),
        0 < k,
        k < a.operations.len() || k == 1,
    ensures
        a.operations.len() > 1,
        k < a.operations.len() ==> !(a.operations[k].stage is Lock),
        k == 1 ==> a.operations[1].stage is Slots,
        k < a.operations.len() ==> !(a.operations[k].asks() is Lock),
    decreases k,
{
    let before = a.operations[k - 1];
    assert(before.valid(b));
    assert(before.on_reply(b, a.replies[k - 1], a.step(k - 1)));
    if k > 1 {
        lemma_locked(b, a, k - 1);
    }
    assert(a.operations[k].valid(b));
}

} // verus!
