//! What is found when one chunk of a file is asked for, and what a cursor reads one read after the
//! other.

use vstd::prelude::*;

use crate::blob::BlobView;
use crate::consistency::{index_bytes, slots_in};
use crate::error::VaultError;
use crate::history::{law_held_range_is_read, range_of, range_outcome};
use crate::read::{find_chunk, law_chunk_is_read, ByIdStageView, ByIdView, ReadIndexView};
use crate::storage::{honest, Reply, StepView};
use crate::transfer::{cursor_step, CursorReadView, RangeView, ReadFromView};
use crate::types::ChunkView;
use crate::vault::{CursorView, VaultView};

verus! {

/// The entry is the first one of the chunk with this number of this file.
pub open spec fn first_of(
    entries: Seq<ChunkView>,
    file_id: Seq<u8>,
    number: u64,
    i: int,
) -> bool {
    &&& 0 <= i < entries.len()
    &&& entries[i].file_id == file_id
    &&& entries[i].sequence_number == number
    &&& forall|j: int|
        0 <= j < i ==> (#[trigger] entries[j]).file_id != file_id || entries[j].sequence_number
            != number
}

/// What asking for a chunk is answered: with what the first entry of this number of this file reads
/// as, and with a broken index where no entry has both.
pub open spec fn answered(
    b: BlobView,
    image: Seq<u8>,
    file_id: Seq<u8>,
    number: u64,
    result: Result<Seq<u8>, VaultError>,
) -> bool {
    let entries = b.entries(image).chunks;
    &&& (forall|i: int|
        0 <= i < entries.len() ==> (#[trigger] entries[i]).file_id != file_id
            || entries[i].sequence_number != number) ==> result == Err::<Seq<u8>, VaultError>(
        VaultError::IndexChainBroken,
    )
    &&& forall|i: int|
        #[trigger] first_of(entries, file_id, number, i) ==> if entries[i].plaintext_length + 40
            <= usize::MAX {
            result == b.stored_chunk(entries[i], image)
        } else {
            result == Err::<Seq<u8>, VaultError>(VaultError::IntegerOverflow)
        }
}

/// On a file that answers as it should, a step ends with the answer after `n` more requests at
/// most.
pub open spec fn finds(
    step: StepView<ByIdView, Seq<u8>>,
    b: BlobView,
    image: Seq<u8>,
    file_id: Seq<u8>,
    number: u64,
    n: nat,
) -> bool
    decreases n,
{
    match step {
        StepView::Done(result) => answered(b, image, file_id, number, result),
        StepView::Ask(operation) => n > 0 && forall|reply: Reply| #[trigger]
            honest(image, operation.asks(), reply) ==> finds(
                operation.on_reply(b, reply),
                b,
                image,
                file_id,
                number,
                (n - 1) as nat,
            ),
    }
}

proof fn lemma_found(entries: Seq<ChunkView>, file_id: Seq<u8>, number: u64)
    ensures
        match find_chunk(entries, file_id, number) {
            None => forall|i: int|
                0 <= i < entries.len() ==> (#[trigger] entries[i]).file_id != file_id
                    || entries[i].sequence_number != number,
            Some(entry) => exists|i: int| #[trigger]
                first_of(entries, file_id, number, i) && entries[i] == entry,
        },
    decreases entries.len(),
{
    if entries.len() > 0 {
        if entries[0].file_id == file_id && entries[0].sequence_number == number {
            assert(first_of(entries, file_id, number, 0));
        } else {
            let rest = entries.skip(1);
            lemma_found(rest, file_id, number);
            match find_chunk(rest, file_id, number) {
                None => {
                    assert forall|i: int| 0 <= i < entries.len() implies (
                    #[trigger] entries[i]).file_id != file_id || entries[i].sequence_number
                        != number by {
                        if i > 0 {
                            assert(entries[i] == rest[i - 1]);
                        }
                    }
                },
                Some(entry) => {
                    let k = choose|k: int| #[trigger]
                        first_of(rest, file_id, number, k) && rest[k] == entry;
                    assert forall|j: int| 0 <= j < k + 1 implies (
                    #[trigger] entries[j]).file_id != file_id || entries[j].sequence_number
                        != number by {
                        if j > 0 {
                            assert(entries[j] == rest[j - 1]);
                        }
                    }
                    assert(entries[k + 1] == rest[k]);
                    assert(first_of(entries, file_id, number, k + 1));
                },
            }
        }
    }
}

proof fn lemma_one_first(entries: Seq<ChunkView>, file_id: Seq<u8>, number: u64, i: int, j: int)
    requires
        first_of(entries, file_id, number, i),
        first_of(entries, file_id, number, j),
    ensures
        i == j,
{
    if i < j {
        assert(entries[i].file_id != file_id || entries[i].sequence_number != number);
    } else if j < i {
        assert(entries[j].file_id != file_id || entries[j].sequence_number != number);
    }
}

/// Once the index is there, at most one more request ends it.
proof fn lemma_entries_lead_to_answer(
    b: BlobView,
    image: Seq<u8>,
    operation: ByIdView,
)
    requires
        b.consistent(image),
    ensures
        finds(
            operation.on_entries(b.entries(image).chunks),
            b,
            image,
            operation.file_id,
            operation.sequence_number,
            1,
        ),
{
    reveal_with_fuel(finds, 2);
    let entries = b.entries(image).chunks;
    let file_id = operation.file_id;
    let number = operation.sequence_number;
    lemma_found(entries, file_id, number);
    match find_chunk(entries, file_id, number) {
        None => {
            assert forall|i: int| #[trigger] first_of(entries, file_id, number, i) implies false by {
                assert(entries[i].file_id != file_id || entries[i].sequence_number != number);
            }
        },
        Some(entry) => {
            let at = choose|i: int| #[trigger]
                first_of(entries, file_id, number, i) && entries[i] == entry;
            assert(entries[at].file_id == file_id);
            assert(b.on_disk(b.entries(image).chunks[at], image));
            match operation.on_entries(entries) {
                StepView::Ask(next) => {
                    assert forall|reply: Reply| #[trigger]
                        honest(image, next.asks(), reply) implies finds(
                        next.on_reply(b, reply),
                        b,
                        image,
                        file_id,
                        number,
                        0,
                    ) by {
                        law_chunk_is_read(b, image, entry, reply);
                        assert forall|i: int| #[trigger]
                            first_of(entries, file_id, number, i) implies i == at by {
                            lemma_one_first(entries, file_id, number, i, at);
                        }
                    }
                },
                StepView::Done(_) => {
                    assert forall|i: int| #[trigger]
                        first_of(entries, file_id, number, i) implies i == at by {
                        lemma_one_first(entries, file_id, number, i, at);
                    }
                },
            }
        },
    }
}

/// On a consistent file that answers as it should, reading a chunk by its file and its number takes
/// three requests at most, and gives what the first entry with both reads as. Where no entry has
/// both, it is answered that the index is broken.
pub proof fn law_chunk_is_found_by_file_and_number(
    b: BlobView,
    image: Seq<u8>,
    file_id: Seq<u8>,
    number: u64,
    retries: usize,
)
    requires
        b.consistent(image),
        b.active(image).index_length <= usize::MAX,
    ensures
        finds(
            StepView::Ask(
                ByIdView {
                    file_id,
                    sequence_number: number,
                    stage: ByIdStageView::Index(ReadIndexView { retries, locator: None }),
                },
            ),
            b,
            image,
            file_id,
            number,
            3,
        ),
{
    let start = ByIdView {
        file_id,
        sequence_number: number,
        stage: ByIdStageView::Index(ReadIndexView { retries, locator: None }),
    };
    let locator = b.active(image);
    assert forall|reply: Reply| #[trigger] honest(image, start.asks(), reply) implies finds(
        start.on_reply(b, reply),
        b,
        image,
        file_id,
        number,
        2,
    ) by {
        assert(reply->Bytes_0@ =~= slots_in(image));
        if locator.index_length == 0 {
            assert(index_bytes(locator, image) =~= Seq::empty());
            lemma_entries_lead_to_answer(b, image, start);
            lemma_finds_later(
                start.on_entries(b.entries(image).chunks),
                b,
                image,
                file_id,
                number,
                1,
            );
        } else {
            let next = start.on_reply(b, reply)->Ask_0;
            assert forall|second: Reply| #[trigger] honest(image, next.asks(), second) implies finds(
                next.on_reply(b, second),
                b,
                image,
                file_id,
                number,
                1,
            ) by {
                assert(second->Bytes_0@ =~= index_bytes(locator, image));
                lemma_entries_lead_to_answer(b, image, next);
            }
        }
    }
}

proof fn lemma_finds_later(
    step: StepView<ByIdView, Seq<u8>>,
    b: BlobView,
    image: Seq<u8>,
    file_id: Seq<u8>,
    number: u64,
    n: nat,
)
    requires
        finds(step, b, image, file_id, number, n),
    ensures
        finds(step, b, image, file_id, number, n + 1),
    decreases n,
{
    if step is Ask {
        let operation = step->Ask_0;
        assert forall|reply: Reply| #[trigger] honest(image, operation.asks(), reply) implies finds(
            operation.on_reply(b, reply),
            b,
            image,
            file_id,
            number,
            n,
        ) by {
            lemma_finds_later(
                operation.on_reply(b, reply),
                b,
                image,
                file_id,
                number,
                (n - 1) as nat,
            );
        }
    }
}

/// On files that answer as they should, a step of reading at a cursor ends with what is expected
/// after `n` more requests at most.
pub open spec fn reads_on(
    step: StepView<ReadFromView, CursorReadView>,
    v: VaultView,
    images: Seq<Seq<u8>>,
    expected: Result<CursorReadView, VaultError>,
    n: nat,
) -> bool
    decreases n,
{
    match step {
        StepView::Done(result) => result == expected,
        StepView::Ask(operation) => n > 0 && forall|reply: Reply| #[trigger]
            honest(images[operation.range.at], operation.range.asks(), reply) ==> reads_on(
                cursor_step(operation.cursor, operation.range.on_reply(v, reply)),
                v,
                images,
                expected,
                (n - 1) as nat,
            ),
    }
}

/// Whatever was read at a cursor, the cursor that comes with it is in the same file, behind what
/// was read.
pub proof fn law_cursor_moves_by_what_was_read(
    cursor: CursorView,
    step: StepView<RangeView, Seq<u8>>,
    read: CursorReadView,
)
    requires
        cursor_step(cursor, step) == StepView::<ReadFromView, CursorReadView>::Done(Ok(read)),
    ensures
        read.cursor.file_id == cursor.file_id,
        read.cursor.position == cursor.position + read.bytes.len(),
        step == StepView::<RangeView, Seq<u8>>::Done(Ok(read.bytes)),
{
}

/// A read at a cursor asks what the read of the range asks, with the cursor where it was, and fails
/// as that fails. It fails too where the cursor would move beyond the largest offset.
pub proof fn law_cursor_reads_as_the_range_does(
    cursor: CursorView,
    step: StepView<RangeView, Seq<u8>>,
)
    ensures
        match step {
            StepView::Ask(range) => cursor_step(cursor, step) is Ask && cursor_step(
                cursor,
                step,
            )->Ask_0.range == range && cursor_step(cursor, step)->Ask_0.cursor == cursor,
            StepView::Done(Err(error)) => cursor_step(cursor, step) == StepView::<
                ReadFromView,
                CursorReadView,
            >::Done(Err(error)),
            StepView::Done(Ok(bytes)) => if cursor.position + bytes.len() <= u64::MAX {
                cursor_step(cursor, step) is Done && cursor_step(cursor, step)->Done_0 is Ok
            } else {
                cursor_step(cursor, step) == StepView::<ReadFromView, CursorReadView>::Done(
                    Err(VaultError::IntegerOverflow),
                )
            },
        },
{
}

proof fn lemma_cursor_follows_range(
    cursor: CursorView,
    step: StepView<RangeView, Seq<u8>>,
    v: VaultView,
    images: Seq<Seq<u8>>,
    bytes: Seq<u8>,
    n: nat,
)
    requires
        cursor.position + bytes.len() <= u64::MAX,
        RangeView::settles(step, v, images, Ok(bytes), n),
    ensures
        reads_on(
            cursor_step(cursor, step),
            v,
            images,
            Ok(
                CursorReadView {
                    cursor: CursorView {
                        file_id: cursor.file_id,
                        position: (cursor.position + bytes.len()) as u64,
                    },
                    bytes,
                },
            ),
            n,
        ),
    decreases n,
{
    if step is Ask {
        let range = step->Ask_0;
        assert forall|reply: Reply| #[trigger] honest(images[range.at], range.asks(), reply) implies
            reads_on(
            cursor_step(cursor, range.on_reply(v, reply)),
            v,
            images,
            Ok(
                CursorReadView {
                    cursor: CursorView {
                        file_id: cursor.file_id,
                        position: (cursor.position + bytes.len()) as u64,
                    },
                    bytes,
                },
            ),
            (n - 1) as nat,
        ) by {
            lemma_cursor_follows_range(
                cursor,
                range.on_reply(v, reply),
                v,
                images,
                bytes,
                (n - 1) as nat,
            );
        }
    }
}

/// Reading at a cursor in a file that a vault holds gives the bytes from the cursor on, as many as
/// asked for or as there are, and moves the cursor behind them.
pub proof fn law_cursor_reads_the_file(
    v: VaultView,
    images: Seq<Seq<u8>>,
    contents: Seq<u8>,
    cursor: CursorView,
    length: u64,
)
    requires
        v.holds(images, cursor.file_id, contents),
        cursor.position + length <= u64::MAX,
    ensures
        ({
            let bytes = range_of(contents, cursor.position as int, length as int);
            &&& cursor.position + bytes.len() <= u64::MAX
            &&& reads_on(
                cursor_step(cursor, v.range_start(cursor.file_id, cursor.position, length)),
                v,
                images,
                Ok(
                    CursorReadView {
                        cursor: CursorView {
                            file_id: cursor.file_id,
                            position: (cursor.position + bytes.len()) as u64,
                        },
                        bytes,
                    },
                ),
                v.index.ordered(cursor.file_id)->Ok_0.len(),
            )
        }),
{
    law_held_range_is_read(v, images, cursor.file_id, contents, cursor.position, length);
    assert(range_outcome(contents, cursor.position, length) == Ok::<Seq<u8>, VaultError>(
        range_of(contents, cursor.position as int, length as int),
    ));
    lemma_cursor_follows_range(
        cursor,
        v.range_start(cursor.file_id, cursor.position, length),
        v,
        images,
        range_of(contents, cursor.position as int, length as int),
        v.index.ordered(cursor.file_id)->Ok_0.len(),
    );
}

/// Successive reads at a cursor: each starts where the one before it ended.
pub open spec fn successive(
    contents: Seq<u8>,
    start: int,
    lengths: Seq<int>,
    reads: Seq<Seq<u8>>,
    positions: Seq<int>,
) -> bool {
    &&& reads.len() == lengths.len()
    &&& positions.len() == lengths.len() + 1
    &&& positions[0] == start
    &&& forall|k: int|
        0 <= k < lengths.len() ==> {
            &&& #[trigger] reads[k] == range_of(contents, positions[k], lengths[k])
            &&& positions[k + 1] == positions[k] + reads[k].len()
        }
}

/// The reads one behind the other.
pub open spec fn all_read(reads: Seq<Seq<u8>>) -> Seq<u8>
    decreases reads.len(),
{
    if reads.len() == 0 {
        Seq::empty()
    } else {
        all_read(reads.drop_last()) + reads.last()
    }
}

/// All that was asked for.
pub open spec fn all_asked(lengths: Seq<int>) -> int
    decreases lengths.len(),
{
    if lengths.len() == 0 {
        0
    } else {
        all_asked(lengths.drop_last()) + lengths.last()
    }
}

/// Successive reads at a cursor join to what one read of all their lengths gives: no byte is read
/// twice, and none is left out.
pub proof fn law_successive_reads_join(
    contents: Seq<u8>,
    start: int,
    lengths: Seq<int>,
    reads: Seq<Seq<u8>>,
    positions: Seq<int>,
)
    requires
        0 <= start,
        forall|k: int| 0 <= k < lengths.len() ==> 0 <= #[trigger] lengths[k],
        successive(contents, start, lengths, reads, positions),
    ensures
        all_read(reads) == range_of(contents, start, all_asked(lengths)),
        positions.last() == start + all_read(reads).len(),
        all_asked(lengths) >= 0,
    decreases lengths.len(),
{
    let n = lengths.len() as int;
    if n == 0 {
        assert(range_of(contents, start, 0) =~= Seq::empty());
    } else {
        let front = lengths.drop_last();
        assert forall|k: int| 0 <= k < front.len() implies 0 <= #[trigger] front[k] by {
            assert(front[k] == lengths[k]);
        }
        assert forall|k: int| 0 <= k < front.len() implies {
            &&& #[trigger] reads.drop_last()[k] == range_of(
                contents,
                positions.drop_last()[k],
                front[k],
            )
            &&& positions.drop_last()[k + 1] == positions.drop_last()[k]
                + reads.drop_last()[k].len()
        } by {
            assert(reads.drop_last()[k] == reads[k]);
        }
        law_successive_reads_join(
            contents,
            start,
            front,
            reads.drop_last(),
            positions.drop_last(),
        );
        let at = positions[n - 1];
        assert(positions.drop_last().last() == at);
        assert(reads[n - 1] == range_of(contents, at, lengths[n - 1]));
        assert(0 <= lengths[n - 1]);
        let before = all_read(reads.drop_last());
        assert(before.len() == range_of(contents, start, all_asked(front)).len());
        assert(before + reads[n - 1] =~= range_of(contents, start, all_asked(lengths)));
    }
}

} // verus!
