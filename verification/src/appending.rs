//! Appending to a blob from the first request to the last, and reading back what was appended.

use vstd::prelude::*;

use crate::accounting::law_blob_lives_orderly;
use crate::blob::{data_tail_of, BlobConfig, BlobView};
use crate::commit::{entries_at, prepare_refusal, Placement, Sealed};
use crate::consistency::{law_transaction_appends, lemma_fitting_chunk, slots_in};
use crate::create::opened;
use crate::crypto::blake2b256_digest;
use crate::error::VaultError;
use crate::index::{IndexView, NewChunkView};
use crate::read::{index_request, law_index_is_read, ReadIndexView};
use crate::storage::{after, honest, Reply, Step, StepView};
use crate::types::{chunk_views, ChunkView};
use crate::write::{law_write_is_what_it_reports, WriteChunks, WriteChunksResult};

verus! {

/// A write from its lock to its result: the operation at each request, the reply to each request,
/// the file before each request and after the last, and what came of it.
pub struct Appending {
    pub operations: Seq<WriteChunks>,
    pub replies: Seq<Reply>,
    pub images: Seq<Seq<u8>>,
    pub result: WriteChunksResult,
}

impl Appending {
    /// What the operation made of the reply to its request with this number.
    pub open spec fn step(self, k: int) -> Step<WriteChunks, WriteChunksResult> {
        if k + 1 < self.operations.len() {
            Step::Ask(self.operations[k + 1])
        } else {
            Step::Done(Ok(self.result))
        }
    }

    /// The operation started at its beginning, the file answered every request as it should, and
    /// the operation took every reply.
    pub open spec fn carried_out(self, b: BlobView) -> bool {
        &&& self.operations.len() > 0
        &&& self.replies.len() == self.operations.len()
        &&& self.images.len() == self.operations.len() + 1
        &&& self.operations[0].stage is Lock
        &&& forall|k: int|
            0 <= k < self.operations.len() ==> {
                let operation = #[trigger] self.operations[k];
                &&& operation.valid(b)
                &&& honest(self.images[k], operation.asks(), self.replies[k])
                &&& self.images[k + 1] == after(self.images[k], operation.asks())
                &&& operation.on_reply(b, self.replies[k], self.step(k))
            }
    }

    /// The file as it was.
    pub open spec fn base(self) -> Seq<u8> {
        self.images[0]
    }

    /// The file as it is.
    pub open spec fn now(self) -> Seq<u8> {
        self.images.last()
    }
}

/// The entry is that of the chunk.
pub open spec fn describes(entry: ChunkView, chunk: NewChunkView) -> bool {
    &&& entry.file_id == chunk.file_id
    &&& entry.sequence_number == chunk.sequence_number
    &&& entry.plaintext_length == chunk.plaintext.len()
    &&& entry.content_hash == blake2b256_digest(chunk.plaintext)
}

proof fn lemma_entries_describe(chunks: Seq<NewChunkView>, tail: int)
    requires
        prepare_refusal(chunks, tail) is None,
    ensures
        forall|i: int|
            0 <= i < chunks.len() ==> describes(#[trigger] entries_at(chunks, tail)[i], chunks[i]),
{
    assert forall|i: int| 0 <= i < chunks.len() implies describes(
        #[trigger] entries_at(chunks, tail)[i],
        chunks[i],
    ) by {
        lemma_fitting_chunk(chunks, tail, i);
    }
}

proof fn lemma_tracks_all_along(b: BlobView, a: Appending, k: int)
    requires
        a.carried_out(b),
        b.index_clear(a.base()),
        0 <= k < a.operations.len(),
    ensures
        a.operations[k].tracks(b, a.base(), a.images[k]),
        a.operations[k].continues(a.operations[0]),
    decreases k,
{
    if k > 0 {
        lemma_tracks_all_along(b, a, k - 1);
        assert(a.operations[k - 1].valid(b));
        law_write_is_what_it_reports(
            b,
            a.base(),
            a.images[k - 1],
            a.operations[k - 1],
            a.replies[k - 1],
            a.step(k - 1),
        );
    }
}

/// A write that succeeds appends to the index that was in force.
///
/// The reported index is what was in force with the reported entries and the completion markers
/// behind it, and it is in force now. There is one entry for each chunk, in order, with the chunk's
/// file, number, length and hash, and it reads as the chunk. This holds whether the index stayed
/// where it was or moved, and whether or not the older chunks can be read.
pub proof fn law_write_appends(b: BlobView, a: Appending)
    requires
        a.carried_out(b),
        b.index_clear(a.base()),
    ensures
        b.indexed(a.base()),
        b.indexed(a.now()),
        ({
            let chunks = a.operations[0].new_chunks();
            let completes = a.operations[0].new_completes();
            let entries = chunk_views(a.result.entries@);
            let before = b.entries(a.base());
            &&& b.entries(a.now()) == a.result.index@
            &&& a.result.index@.chunks == before.chunks + entries
            &&& a.result.index@.completed_files == before.completed_files + completes
            &&& entries.len() == chunks.len()
            &&& forall|i: int|
                0 <= i < chunks.len() ==> describes(#[trigger] entries[i], chunks[i])
                    && b.stored_chunk(entries[i], a.now()) == Ok::<Seq<u8>, VaultError>(
                    chunks[i].plaintext,
                )
            &&& exists|place: Placement, sealed: Sealed| #[trigger]
                b.wrote(a.base(), chunks, completes, place, sealed, a.now())
        }),
        a.now().subrange(0, 2048) == a.base().subrange(0, 2048),
        b.active(a.now()).generation == b.active(a.base()).generation + 1,
        b.locators(slots_in(a.now()))[1] == b.active(a.base()),
        b.consistent(a.base()) ==> b.consistent(a.now()),
{
    let last = a.operations.len() - 1;
    let operation = a.operations[last];
    lemma_tracks_all_along(b, a, last);
    assert(operation.valid(b));
    law_write_is_what_it_reports(
        b,
        a.base(),
        a.images[last],
        operation,
        a.replies[last],
        a.step(last),
    );
    let chunks = operation.new_chunks();
    let completes = operation.new_completes();
    let (place, sealed) = choose|place: Placement, sealed: Sealed| #[trigger]
        b.wrote(a.base(), chunks, completes, place, sealed, a.now());
    law_transaction_appends(b, a.base(), chunks, completes, place, sealed);
    let entries = chunk_views(a.result.entries@);
    let tail = data_tail_of(b.entries(a.base()).chunks);
    assert(entries == entries_at(chunks, tail));
    lemma_entries_describe(chunks, tail);
    assert forall|i: int| 0 <= i < chunks.len() implies describes(#[trigger] entries[i], chunks[i])
        && b.stored_chunk(entries[i], a.now()) == Ok::<Seq<u8>, VaultError>(
        chunks[i].plaintext,
    ) by {
        assert(describes(entries_at(chunks, tail)[i], chunks[i]));
        assert(b.stored_chunk(entries_at(chunks, tail)[i], a.now()) == Ok::<Seq<u8>, VaultError>(
            chunks[i].plaintext,
        ));
    }
}

/// After a write, reading the index gives the index that the write reported, from the blob that
/// wrote and from one that is opened afresh, with whatever configuration and retries.
///
/// The file is one that the blob was opened from, and the reported index fits into memory.
pub proof fn law_written_index_is_read_back(
    b: BlobView,
    a: Appending,
    vault_id: Seq<u8>,
    master_key: Seq<u8>,
    config: BlobConfig,
    reader: BlobView,
    start: ReadIndexView,
    first: Reply,
    second: Reply,
)
    requires
        a.carried_out(b),
        b.index_clear(a.base()),
        opened(a.base().subrange(0, 2048), vault_id, master_key, b.config) == Ok::<
            BlobView,
            VaultError,
        >(b),
        reader == b || opened(a.now().subrange(0, 2048), vault_id, master_key, config) == Ok::<
            BlobView,
            VaultError,
        >(reader),
        start.locator is None,
        b.active(a.now()).index_length <= usize::MAX,
        honest(a.now(), start.asks(), first),
        honest(a.now(), index_request(b.active(a.now())), second),
    ensures
        match start.on_reply(reader, first) {
            StepView::Done(result) => result == Ok::<IndexView, VaultError>(a.result.index@),
            StepView::Ask(next) => {
                &&& next.asks() == index_request(b.active(a.now()))
                &&& next.on_reply(reader, second) == StepView::<ReadIndexView, IndexView>::Done(
                    Ok(a.result.index@),
                )
            },
        },
{
    law_write_appends(b, a);
    lemma_configuration_does_not_matter(b, reader, a.now());
    law_index_is_read(reader, a.now(), start, first, second);
}

/// What a file holds for a blob does not depend on how the blob is configured.
proof fn lemma_configuration_does_not_matter(b: BlobView, c: BlobView, image: Seq<u8>)
    requires
        c == (BlobView { config: c.config, ..b }),
    ensures
        c.indexed(image) == b.indexed(image),
        c.active(image) == b.active(image),
        c.stored(image) == b.stored(image),
{
    let slots = slots_in(image);
    assert(c.slot_locator(0, slots.take(1024)) == b.slot_locator(0, slots.take(1024)));
    assert(c.slot_locator(1, slots.skip(1024)) == b.slot_locator(1, slots.skip(1024)));
}

/// A blob can be opened after a write as it could before: the same blob comes of it, or the same
/// refusal.
pub proof fn law_written_blob_opens_as_before(
    b: BlobView,
    a: Appending,
    vault_id: Seq<u8>,
    master_key: Seq<u8>,
    config: BlobConfig,
)
    requires
        a.carried_out(b),
        b.index_clear(a.base()),
    ensures
        opened(a.now().subrange(0, 2048), vault_id, master_key, config) == opened(
            a.base().subrange(0, 2048),
            vault_id,
            master_key,
            config,
        ),
{
    law_write_appends(b, a);
}

/// A blob that was created and written to and is written to once more has lived on.
pub proof fn law_write_is_part_of_a_life(b: BlobView, images: Seq<Seq<u8>>, a: Appending)
    requires
        b.lived(images),
        a.carried_out(b),
        a.base() == images.last(),
    ensures
        b.lived(images.push(a.now())),
{
    law_blob_lives_orderly(b, images, images.len() - 1);
    law_write_appends(b, a);
    let longer = images.push(a.now());
    assert forall|k: int|
        #![trigger longer[k]]
        0 < k < longer.len() implies b.advanced(longer[k - 1], longer[k]) by {
        assert(longer[k - 1] == images[k - 1]);
        if k < images.len() {
            assert(longer[k] == images[k]);
        }
    }
    assert(longer[0] == images[0]);
}

} // verus!
