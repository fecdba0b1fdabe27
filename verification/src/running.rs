//! How the operations start, go on, fail and end.

use vstd::prelude::*;

use crate::blob::{Blob, BlobConfig, BlobView};
use crate::consistency::slots_in;
use crate::create::opened;
use crate::crypto::blake2b256_digest;
use crate::error::VaultError;
use crate::files::total_len;
use crate::index::{IndexView, NewChunk, NewChunkView, NewFileComplete};
use crate::judging::{
    bytes_from, index_at, known, law_blob_is_found_by_identity, lemma_bytes, lemma_of_file_is_known,
    lies_in,
};
use crate::open::OpenBlob;
use crate::plan::{chunks_for, chunks_of, FilePlan};
use crate::read::{
    layout_in, ByIdStageView, ByIdView, MeasureLayout, MeasureView, ReadChunk, ReadChunkById,
    ReadIndex, ReadIndexView, RefreshSnapshot, RefreshView,
};
use crate::session::{
    layouts_in, on_attach_reply, position_of, AttachBlob, MeasureVaultView, RefreshBlob,
    RefreshBlobView, RefreshIndexes, RefreshIndexesView,
};
use crate::stats::BlobLayoutStats;
use crate::storage::{Reply, Request, RequestView, Step, StepView};
use crate::transfer::{
    marker_of, parcels_from, parcels_of, smaller, ParcelView, PutFile, RangeView, ReadFileView,
};
use crate::types::{BlobId, ChunkEntry, CompleteView, FileId, VaultId, VaultMasterKey};
use crate::vault::{LocatedChunk, Vault, VaultConfig, VaultFileCursor, VaultView};
use crate::write::{WriteChunks, WriteChunksResult, WriteStage};

verus! {

/// A request that could not be carried out ends the reading of a blob with its error.
pub proof fn law_failed_reading_of_a_blob_ends(
    b: BlobView,
    error: std::io::Error,
    index: ReadIndexView,
    snapshot: RefreshView,
    chunk: ByIdView,
    layout: MeasureView,
)
    ensures
        ({
            let reply = Reply::Failed(error);
            let failure = VaultError::Io(error);
            &&& index.on_reply(b, reply) == StepView::<ReadIndexView, IndexView>::Done(
                Err(failure),
            )
            &&& snapshot.on_reply(b, reply) == StepView::<RefreshView, IndexView>::Done(
                Err(failure),
            )
            &&& chunk.on_reply(b, reply) == StepView::<ByIdView, Seq<u8>>::Done(Err(failure))
            &&& layout.on_reply(b, reply) == StepView::<MeasureView, BlobLayoutStats>::Done(
                Err(failure),
            )
        }),
{
}

/// A request that could not be carried out ends an operation of the vault with its error, and the
/// vault knows what it knew before.
pub proof fn law_failed_reading_of_a_vault_ends(
    v: VaultView,
    vault: Vault,
    error: std::io::Error,
    range: RangeView,
    indexes: RefreshIndexesView,
    changed: RefreshBlobView,
    layouts: MeasureVaultView,
)
    ensures
        ({
            let reply = Reply::Failed(error);
            let failure = VaultError::Io(error);
            &&& range.on_reply(v, reply) == StepView::<RangeView, Seq<u8>>::Done(Err(failure))
            &&& indexes.on_reply(v, reply) == (
                StepView::<RefreshIndexesView, ()>::Done(Err(failure)),
                v,
            )
            &&& on_attach_reply(indexes, v, reply) == (
                StepView::<RefreshIndexesView, ()>::Done(Err(failure)),
                v,
            )
            &&& changed.on_reply(v, reply) == (
                StepView::<RefreshBlobView, IndexView>::Done(Err(failure)),
                v,
            )
            &&& layouts.on_reply(vault, reply) == StepView::<
                MeasureVaultView,
                Seq<(BlobId, BlobLayoutStats)>,
            >::Done(Err(failure))
        }),
{
}

/// A request that could not be carried out ends a writing operation with its error. What was known
/// before is known on.
pub proof fn law_failed_writing_ends(
    b: BlobView,
    v: VaultView,
    now: VaultView,
    error: std::io::Error,
    write: WriteChunks,
    written: Step<WriteChunks, WriteChunksResult>,
    put: PutFile,
    stored: Step<PutFile, ()>,
    open: OpenBlob,
    opened: Step<OpenBlob, Blob>,
)
    requires
        write.on_reply(b, Reply::Failed(error), written),
        put.on_reply(v, Reply::Failed(error), stored, now),
        open.on_reply(Reply::Failed(error), opened),
    ensures
        written == Step::<WriteChunks, WriteChunksResult>::Done(Err(VaultError::Io(error))),
        stored == Step::<PutFile, ()>::Done(Err(VaultError::Io(error))) && now == v,
        opened == Step::<OpenBlob, Blob>::Done(Err(VaultError::Io(error))),
{
}

/// Storing a file goes by what comes of its transactions: one that asks on is carried on, one that
/// fails ends it with its error and changes nothing, and one that is over is known from then on and
/// makes way for the next parcel, until there is none.
pub proof fn law_storing_goes_from_parcel_to_parcel(
    v: VaultView,
    put: PutFile,
    reply: Reply,
    r: Step<PutFile, ()>,
    now: VaultView,
)
    requires
        put.on_reply(v, reply, r, now),
    ensures
        exists|step: Step<WriteChunks, WriteChunksResult>|
            #[trigger] put.operation.on_reply(v.blobs[put.at as int], reply, step) && match step {
                Step::Ask(operation) => now == v && r is Ask && r->Ask_0.at == put.at
                    && r->Ask_0.operation == operation && r->Ask_0.queue() == put.queue(),
                Step::Done(Err(error)) => now == v && r == Step::<PutFile, ()>::Done(Err(error)),
                Step::Done(Ok(result)) => {
                    &&& now.index == v.index.replaced(
                        v.blobs[put.at as int].blob_id,
                        result.index@,
                    )
                    &&& now.blobs == v.blobs && now.config == v.config && now.cursor == v.cursor
                    &&& put.queue().len() == 0 ==> r == Step::<PutFile, ()>::Done(Ok(()))
                    &&& put.queue().len() > 0 ==> r is Ask && r->Ask_0.asks_of(put.queue())
                },
            },
{
    let step = choose|step: Step<WriteChunks, WriteChunksResult>|
        #[trigger] put.operation.on_reply(v.blobs[put.at as int], reply, step) && put.comes_of(
            v,
            step,
            r,
            now,
        );
    assert(put.operation.on_reply(v.blobs[put.at as int], reply, step));
}

/// Reading a file as a whole goes by the reading of its range: it asks what that asks, and fails as
/// that fails. Its size is asked for first, and fails it too. What was read of a file without a
/// marker is not handed out.
pub proof fn law_whole_file_is_read_as_a_range(
    v: VaultView,
    file_id: Seq<u8>,
    step: StepView<RangeView, Seq<u8>>,
)
    ensures
        match step {
            StepView::Ask(range) => v.file_step(file_id, step) is Ask && v.file_step(
                file_id,
                step,
            )->Ask_0.range == range && v.file_step(file_id, step)->Ask_0.file_id == file_id,
            StepView::Done(Err(error)) => v.file_step(file_id, step) == StepView::<
                ReadFileView,
                Seq<u8>,
            >::Done(Err(error)),
            StepView::Done(Ok(_)) => v.file_step(file_id, step) is Done && (
            v.index.latest_complete(file_id) is None ==> v.file_step(file_id, step) == StepView::<
                ReadFileView,
                Seq<u8>,
            >::Done(Err(VaultError::IncompleteFile))),
        },
        match v.index.size(file_id) {
            Err(error) => v.file_start(file_id) == StepView::<ReadFileView, Seq<u8>>::Done(
                Err(error),
            ),
            Ok(size) => v.file_start(file_id) == v.file_step(
                file_id,
                v.range_start(file_id, 0, size),
            ),
        },
{
}

/// A chunk that is looked for by its place fails as the reading of the index fails. A blob that was
/// changed is known by its new index where that was read, and as before where it was not.
pub proof fn law_reading_goes_by_the_index(
    v: VaultView,
    chunk: ByIdView,
    changed: RefreshBlobView,
    reply: Reply,
)
    requires
        chunk.stage is Index,
        0 <= changed.at < v.blobs.len(),
    ensures
        ({
            let b = v.blobs[changed.at];
            let (step, now) = changed.on_reply(v, reply);
            let reading = match chunk.stage {
                ByIdStageView::Index(reading) => reading,
                _ => arbitrary(),
            };
            let looked = chunk.on_reply(b, reply);
            &&& match changed.operation.on_reply(b, reply) {
                StepView::Ask(next) => step is Ask && step->Ask_0.at == changed.at
                    && step->Ask_0.operation == next && now == v,
                StepView::Done(Err(error)) => step == StepView::<RefreshBlobView, IndexView>::Done(
                    Err(error),
                ) && now == v,
                StepView::Done(Ok(index)) => {
                    &&& step == StepView::<RefreshBlobView, IndexView>::Done(Ok(index))
                    &&& now.index == v.index.replaced(b.blob_id, index)
                    &&& now.blobs == v.blobs && now.config == v.config && now.cursor == v.cursor
                },
            }
            &&& match reading.on_reply(b, reply) {
                StepView::Ask(next) => looked is Ask && looked->Ask_0.stage
                    == ByIdStageView::Index(next) && looked->Ask_0.file_id == chunk.file_id
                    && looked->Ask_0.sequence_number == chunk.sequence_number,
                StepView::Done(Err(error)) => looked == StepView::<ByIdView, Seq<u8>>::Done(
                    Err(error),
                ),
                StepView::Done(Ok(_)) => true,
            }
        }),
{
}

/// Some chunk of the index ends beyond the largest offset.
pub open spec fn ends_beyond(index: IndexView) -> bool {
    exists|i: int|
        0 <= i < index.chunks.len() && (#[trigger] index.chunks[i]).offset_in_blob
            + index.chunks[i].plaintext_length + 40 > u64::MAX
}

/// A write is refused where no slot opens, where no memory is large enough for the index in force,
/// where that is not authentic or broken, and where it lists a chunk that ends beyond the largest
/// offset, for that reason, before anything is written.
pub proof fn law_write_is_refused_for_the_index(
    b: BlobView,
    write: WriteChunks,
    reply: Reply,
    r: Step<WriteChunks, WriteChunksResult>,
)
    requires
        reply is Bytes,
        write.on_reply(b, reply, r),
    ensures
        write.stage is Slots && b.locators(reply->Bytes_0@).len() == 0 ==> r == Step::<
            WriteChunks,
            WriteChunksResult,
        >::Done(Err(VaultError::NoValidLocator)),
        write.stage is Slots && b.locators(reply->Bytes_0@).len() > 0 && 0 < b.locators(
            reply->Bytes_0@,
        )[0].index_length <= usize::MAX ==> r is Ask && r->Ask_0.asks() == (RequestView::Read {
            offset: b.locators(reply->Bytes_0@)[0].index_offset,
            length: b.locators(reply->Bytes_0@)[0].index_length as usize,
        }),
        write.stage is Slots && b.locators(reply->Bytes_0@).len() > 0 && b.locators(
            reply->Bytes_0@,
        )[0].index_length > usize::MAX ==> r == Step::<WriteChunks, WriteChunksResult>::Done(
            Err(VaultError::IntegerOverflow),
        ),
        match write.stage {
            WriteStage::Index(locator) => match b.index_of(locator@, reply->Bytes_0@) {
                Err(error) => r == Step::<WriteChunks, WriteChunksResult>::Done(Err(error)),
                Ok((index, _)) => ends_beyond(index) ==> r == Step::<
                    WriteChunks,
                    WriteChunksResult,
                >::Done(Err(VaultError::IntegerOverflow)),
            },
            _ => true,
        },
{
}

/// A blob file that is there is opened as its stable slot says, and refused as that refuses it.
pub proof fn law_stable_slot_opens_the_file(
    open: OpenBlob,
    reply: Reply,
    r: Step<OpenBlob, Blob>,
)
    requires
        open.stage is Stable,
        reply is Bytes,
        open.on_reply(reply, r),
    ensures
        match opened(reply->Bytes_0@, open.vault_id@, open.master_key@, open.config) {
            Ok(b) => r is Done && r->Done_0 is Ok && r->Done_0->Ok_0@ == b,
            Err(error) => r == Step::<OpenBlob, Blob>::Done(Err(error)),
        },
{
}

/// A blob file that is there and holds the front matter is opened from its stable slot; any other
/// is locked, to be made anew. Nothing is asked for where the gaps or the paddings do not fit.
pub proof fn law_blob_file_is_opened_or_made(
    existed: bool,
    length: u64,
    vault_id: VaultId,
    master_key: VaultMasterKey,
    config: BlobConfig,
    r: Step<OpenBlob, Blob>,
    existing: Step<OpenBlob, Blob>,
)
    requires
        call_ensures(Blob::open, (existed, length, vault_id, &master_key, config), r),
        call_ensures(Blob::open_existing, (vault_id, &master_key, config), existing),
    ensures
        ({
            let fits = config.initial_leading_gap + config.initial_trailing_gap <= u64::MAX
                && config.relocation_leading_padding + config.relocation_trailing_padding
                <= u64::MAX;
            &&& !fits ==> r == Step::<OpenBlob, Blob>::Done(Err(VaultError::IntegerOverflow))
                && existing == r
            &&& fits ==> {
                &&& r is Ask
                &&& r->Ask_0.asks() == if existed && length >= 4096 {
                    RequestView::Read { offset: 0, length: 2048 }
                } else {
                    RequestView::Lock
                }
                &&& existing is Ask
                &&& existing->Ask_0.asks() == (RequestView::Read { offset: 0, length: 2048 })
                &&& r->Ask_0.vault_id == vault_id && existing->Ask_0.vault_id == vault_id
                &&& r->Ask_0.master_key == master_key && existing->Ask_0.master_key == master_key
                &&& r->Ask_0.config == config && existing->Ask_0.config == config
            }
        }),
{
}

/// The reading of a blob starts with its two slots, and with as many retries as it allows. A write
/// starts with the lock, for the chunks and the markers that are given.
pub proof fn law_operations_of_a_blob_start_so(
    blob: Blob,
    file_id: FileId,
    sequence_number: u64,
    chunks: Vec<NewChunk>,
    completed_files: Vec<NewFileComplete>,
    index: ReadIndex,
    chunk: ReadChunkById,
    snapshot: RefreshSnapshot,
    layout: MeasureLayout,
    write: WriteChunks,
)
    requires
        call_ensures(Blob::read_index, (&blob,), index),
        call_ensures(Blob::read_chunk_by_id, (&blob, file_id, sequence_number), chunk),
        call_ensures(Blob::refresh_committed_snapshot, (&blob,), snapshot),
        call_ensures(Blob::layout_stats, (&blob,), layout),
        call_ensures(Blob::write_chunks, (&blob, chunks, completed_files), write),
    ensures
        ({
            let slots = RequestView::Read { offset: 2048, length: 2048 };
            &&& index@.asks() == slots
            &&& index@.retries == blob@.config.reader_retry_budget
            &&& chunk@.asks() == slots
            &&& chunk@.file_id == file_id@
            &&& chunk@.sequence_number == sequence_number
            &&& chunk@.stage matches ByIdStageView::Index(reading)
            &&& reading.retries == blob@.config.reader_retry_budget
            &&& snapshot@.asks() == slots
            &&& layout@.asks() == slots
            &&& write.asks() == RequestView::Lock
            &&& write.chunks == chunks
            &&& write.completed_files == completed_files
        }),
{
}

/// A chunk is read by one request for its frame, which is forty bytes longer than the plaintext. It
/// is refused where no memory is that large.
pub proof fn law_chunk_is_read_by_one_request(
    blob: Blob,
    entry: ChunkEntry,
    r: Step<ReadChunk, Vec<u8>>,
    request: Request,
)
    requires
        call_ensures(Blob::read_chunk, (&blob, &entry), r),
        r is Ask ==> call_ensures(ReadChunk::request, (&r->Ask_0,), request),
    ensures
        r is Ask <==> entry.plaintext_length + 40 <= u64::MAX && entry.plaintext_length + 40
            <= usize::MAX,
        r is Ask ==> request@ == (RequestView::Read {
            offset: entry.offset_in_blob,
            length: (entry.plaintext_length + 40) as usize,
        }),
        !(r is Ask) ==> r == Step::<ReadChunk, Vec<u8>>::Done(Err(VaultError::IntegerOverflow)),
{
}

/// What a vault and a blob are configured with where nothing else is said.
pub proof fn law_defaults(vault: VaultConfig, blob: BlobConfig)
    requires
        call_ensures(VaultConfig::default, (), vault),
        call_ensures(BlobConfig::default, (), blob),
    ensures
        vault.max_chunk_size == 4_194_304,
        vault.max_blob_size == 1_073_741_824,
        !vault.split_files_across_blobs,
        !vault.stripe_chunks_across_blobs,
        vault.cache_indexes_on_open,
        blob.initial_leading_gap == 1_048_576,
        blob.initial_trailing_gap == 1_048_576,
        blob.relocation_leading_padding == 8_388_608,
        blob.relocation_trailing_padding == 1_048_576,
        blob.reader_retry_budget == 3,
        !blob.diagnostics,
{
}

/// A blob of the vault is attached behind the others and its slots are read first; what is known of
/// the others stays. A blob of another vault is refused and changes nothing.
pub proof fn law_blob_is_attached_last()
    ensures
        forall|vault: &mut Vault, blob: Blob, r: Result<AttachBlob, VaultError>| #[trigger]
            call_ensures(Vault::append_blob, (vault, blob), r) ==> {
                let before = (*vault)@;
                let after = (*final(vault))@;
                if blob@.vault_id == before.vault_id {
                    &&& r is Ok
                    &&& r->Ok_0@.at == before.blobs.len()
                    &&& r->Ok_0@.operation.asks() == (RequestView::Read {
                        offset: 2048,
                        length: 2048,
                    })
                    &&& after.blobs.len() == before.blobs.len() + 1
                    &&& after.blobs.last() == blob@
                    &&& after.blobs.drop_last() == before.blobs
                    &&& after.index == before.index
                    &&& after.config == before.config
                    &&& after.cursor == before.cursor
                    &&& after.vault_id == before.vault_id
                } else {
                    r == Err::<AttachBlob, VaultError>(VaultError::InvalidConfig) && after
                        == before
                }
            },
{
    assert forall|vault: &mut Vault, blob: Blob, r: Result<AttachBlob, VaultError>| #[trigger]
        call_ensures(Vault::append_blob, (vault, blob), r) && blob@.vault_id
            == (*vault)@.vault_id implies (*final(vault))@.blobs.drop_last()
        == (*vault)@.blobs by {
        assert((*vault)@.blobs.push(blob@).drop_last() =~= (*vault)@.blobs);
    }
}

/// A blob that was changed is read again by those who know it, with as many retries as it allows.
pub proof fn law_changed_blob_is_read_again(
    vault: Vault,
    blob_id: BlobId,
    r: Result<RefreshBlob, VaultError>,
)
    requires
        call_ensures(Vault::handle_blob_changed, (&vault, blob_id), r),
    ensures
        r is Ok <==> exists|i: int|
            0 <= i < vault@.blobs.len() && (#[trigger] vault@.blobs[i]).blob_id == blob_id@,
        r is Err ==> r->Err_0 == VaultError::BlobNotFound,
        r is Ok ==> {
            let at = r->Ok_0@.at;
            &&& 0 <= at < vault@.blobs.len()
            &&& vault@.blobs[at].blob_id == blob_id@
            &&& r->Ok_0@.operation.retries == vault@.blobs[at].config.reader_retry_budget
            &&& r->Ok_0@.operation.asks() == (RequestView::Read { offset: 2048, length: 2048 })
        },
{
    law_blob_is_found_by_identity(vault@.blobs, blob_id@, 0);
}

/// Forgetting what is known starts with the slots of the first blob.
pub proof fn law_refresh_starts_with_the_first_blob()
    ensures
        forall|vault: &mut Vault, r: RefreshIndexes| #[trigger]
            call_ensures(Vault::refresh_indexes, (vault,), r) ==> {
                &&& r@.at == 0
                &&& r@.operation.asks() == (RequestView::Read { offset: 2048, length: 2048 })
                &&& (*final(vault))@.index.chunks.len() == 0
                &&& (*final(vault))@.index.completed_files.len() == 0
                &&& (*final(vault))@.blobs == (*vault)@.blobs
                &&& (*final(vault))@.config == (*vault)@.config
                &&& (*final(vault))@.cursor == (*vault)@.cursor
            },
{
}

/// Refreshing goes from blob to blob: an index that was found is known from then on, and the slots
/// of the next blob are read, until there is none. The first failure ends it.
pub proof fn law_refresh_goes_from_blob_to_blob(
    v: VaultView,
    operation: RefreshIndexesView,
    reply: Reply,
)
    requires
        0 <= operation.at < v.blobs.len(),
    ensures
        ({
            let at = operation.at;
            let (step, now) = operation.on_reply(v, reply);
            let (attached, then) = on_attach_reply(operation, v, reply);
            match operation.operation.on_reply(v.blobs[at], reply) {
                StepView::Ask(next) => step is Ask && step->Ask_0.at == at && step->Ask_0.operation
                    == next && now == v && attached == step && then == v,
                StepView::Done(Err(error)) => step == StepView::<RefreshIndexesView, ()>::Done(
                    Err(error),
                ) && now == v && attached == step && then == v,
                StepView::Done(Ok(index)) => {
                    &&& now.index == v.index.replaced(v.blobs[at].blob_id, index)
                    &&& now.blobs == v.blobs && now.config == v.config && now.cursor == v.cursor
                    &&& then == now
                    &&& attached == StepView::<RefreshIndexesView, ()>::Done(Ok(()))
                    &&& at + 1 == v.blobs.len() ==> step == attached
                    &&& at + 1 < v.blobs.len() ==> step is Ask && step->Ask_0.at == at + 1
                        && step->Ask_0.operation.asks() == (RequestView::Read {
                        offset: 2048,
                        length: 2048,
                    })
                },
            }
        }),
{
}

/// A cursor stands at the start of a file that may be read as a whole, and moves where it is sent.
pub proof fn law_cursor_goes_where_it_is_sent(
    vault: Vault,
    file_id: FileId,
    r: Result<VaultFileCursor, VaultError>,
)
    requires
        call_ensures(Vault::open_file, (&vault, file_id), r),
    ensures
        match vault@.index.incompleteness(file_id@) {
            Some(error) => r == Err::<VaultFileCursor, VaultError>(error),
            None => r is Ok && r->Ok_0@.file_id == file_id@ && r->Ok_0@.position == 0,
        },
        forall|cursor: &mut VaultFileCursor, position: u64| #[trigger]
            call_ensures(VaultFileCursor::seek, (cursor, position), ()) ==> (
            *final(cursor))@.position == position && (*final(cursor))@.file_id
                == (*cursor)@.file_id,
{
}

/// A file of which any chunk is known is not stored again, and nothing changes. Any other is stored
/// where it is planned, or refused for the reason that planning gives.
pub proof fn law_known_file_is_not_stored_again()
    ensures
        forall|vault: &mut Vault, file_id: FileId, contents: &[u8], r: Step<PutFile, ()>| #[trigger]
            call_ensures(Vault::put_file, (vault, file_id, contents), r) ==> {
                let before = (*vault)@;
                let after = (*final(vault))@;
                let (plan, planned) = before.file_plan(contents@.len() as int);
                if known(before.index.chunks, file_id@) {
                    r == Step::<PutFile, ()>::Done(Err(VaultError::FileAlreadyExists)) && after
                        == before
                } else {
                    &&& after == planned
                    &&& match plan {
                        Err(error) => r == Step::<PutFile, ()>::Done(Err(error)),
                        Ok(plan) => {
                            let parcels = before.parcels(file_id@, contents@, plan);
                            &&& parcels.len() > 0
                            &&& r is Ask
                            &&& r->Ask_0.asks_of(parcels)
                        },
                    }
                }
            },
{
    assert forall|vault: &mut Vault, file_id: FileId| #![trigger (*vault)@, file_id@]
        known((*vault)@.index.chunks, file_id@) <==> (*vault)@.index.file_chunks(
            file_id@,
        ).len() > 0 by {
        lemma_of_file_is_known((*vault)@.index, file_id@);
    }
}

impl PutFile {
    /// The first of the parcels is about to be written, and the others are to follow.
    pub open spec fn asks_of(self, parcels: Seq<ParcelView>) -> bool {
        &&& self.at == parcels[0].blob
        &&& self.operation.new_chunks() == parcels[0].chunks
        &&& self.operation.new_completes() == parcels[0].completed_files
        &&& self.operation.asks() == RequestView::Lock
        &&& self.queue() == parcels.skip(1)
    }
}

/// The places among the first `n` pieces that go to the blob, in their order.
pub open spec fn places_of(blobs: Seq<int>, blob: int, n: int) -> Seq<int>
    decreases n,
{
    if n <= 0 {
        Seq::empty()
    } else if blobs[n - 1] == blob {
        places_of(blobs, blob, n - 1).push(n - 1)
    } else {
        places_of(blobs, blob, n - 1)
    }
}

proof fn lemma_places(chunks: Seq<NewChunkView>, blobs: Seq<int>, blob: int, n: int)
    requires
        0 <= n <= blobs.len(),
        blobs.len() <= chunks.len(),
    ensures
        chunks_for(chunks, blobs, blob, n).len() == places_of(blobs, blob, n).len(),
        forall|i: int|
            0 <= i < places_of(blobs, blob, n).len() ==> 0 <= #[trigger] places_of(
                blobs,
                blob,
                n,
            )[i] < n && chunks_for(chunks, blobs, blob, n)[i] == chunks[places_of(
                blobs,
                blob,
                n,
            )[i]],
    decreases n,
{
    if n > 0 {
        lemma_places(chunks, blobs, blob, n - 1);
    }
}

/// The parcel goes to a blob and holds the chunks at the places that go to it, in their order.
pub open spec fn packed(parcel: ParcelView, chunks: Seq<NewChunkView>, blobs: Seq<int>) -> bool {
    let places = places_of(blobs, parcel.blob, blobs.len() as int);
    &&& places.len() > 0
    &&& parcel.chunks.len() == places.len()
    &&& forall|i: int| 0 <= i < places.len() ==> parcel.chunks[i] == chunks[#[trigger] places[i]]
}

/// A parcel goes to the blob.
pub open spec fn is_sent(parcels: Seq<ParcelView>, blob: int) -> bool {
    exists|i: int| 0 <= i < parcels.len() && (#[trigger] parcels[i]).blob == blob
}

proof fn lemma_parcels(
    chunks: Seq<NewChunkView>,
    blobs: Seq<int>,
    marker: CompleteView,
    from: int,
    count: int,
)
    requires
        blobs.len() <= chunks.len(),
    ensures
        ({
            let parcels = parcels_from(chunks, blobs, marker, from, count);
            &&& forall|i: int|
                0 <= i < parcels.len() ==> packed(#[trigger] parcels[i], chunks, blobs)
                    && from <= parcels[i].blob < count
            &&& forall|i: int, j: int|
                0 <= i < j < parcels.len() ==> (#[trigger] parcels[i]).blob < (
                #[trigger] parcels[j]).blob
            &&& forall|i: int|
                0 <= i < parcels.len() - 1 ==> (
                #[trigger] parcels[i]).completed_files.len() == 0
            &&& parcels.len() > 0 ==> parcels.last().completed_files == seq![marker]
            &&& forall|blob: int|
                from <= blob < count ==> (#[trigger] is_sent(parcels, blob) <==> places_of(
                    blobs,
                    blob,
                    blobs.len() as int,
                ).len() > 0)
        }),
    decreases count - from,
{
    let parcels = parcels_from(chunks, blobs, marker, from, count);
    if from < count {
        lemma_parcels(chunks, blobs, marker, from + 1, count);
        lemma_places(chunks, blobs, from, blobs.len() as int);
        let rest = parcels_from(chunks, blobs, marker, from + 1, count);
        let here = chunks_for(chunks, blobs, from, blobs.len() as int);
        if here.len() > 0 {
            assert(parcels.len() == rest.len() + 1);
            assert(forall|i: int| 0 < i < parcels.len() ==> #[trigger] parcels[i] == rest[i - 1]);
            assert(parcels[0].blob == from);
            if rest.len() > 0 {
                assert(parcels.last() == rest.last());
            }
            assert forall|blob: int| from <= blob < count implies (#[trigger] is_sent(
                parcels,
                blob,
            ) <==> places_of(blobs, blob, blobs.len() as int).len() > 0) by {
                if blob > from {
                    if is_sent(rest, blob) {
                        let i = choose|i: int|
                            0 <= i < rest.len() && (#[trigger] rest[i]).blob == blob;
                        assert(parcels[i + 1].blob == blob);
                    }
                    if is_sent(parcels, blob) {
                        let i = choose|i: int|
                            0 <= i < parcels.len() && (#[trigger] parcels[i]).blob == blob;
                        assert(rest[i - 1].blob == blob);
                    }
                }
            }
        } else {
            assert forall|blob: int| from <= blob < count implies (#[trigger] is_sent(
                parcels,
                blob,
            ) <==> places_of(blobs, blob, blobs.len() as int).len() > 0) by {
                if blob == from && is_sent(parcels, blob) {
                    let i = choose|i: int|
                        0 <= i < parcels.len() && (#[trigger] parcels[i]).blob == blob;
                    assert(from + 1 <= parcels[i].blob);
                }
            }
        }
    }
}

/// What storing a file sends: to every blob that gets a piece one parcel, in the order of the
/// blobs, with its pieces in their order. The marker goes with the last parcel alone, and gives the
/// number of the pieces and the hash of the contents.
pub proof fn law_marker_goes_with_the_last_parcel(
    file_id: Seq<u8>,
    contents: Seq<u8>,
    plan: FilePlan,
    blobs: int,
)
    requires
        plan.chunk_size > 0,
        plan.blobs.len() == chunks_of(file_id, contents, plan.chunk_size).len(),
        plan.blobs.len() <= u64::MAX,
    ensures
        ({
            let parcels = parcels_of(file_id, contents, plan, blobs);
            let chunks = chunks_of(file_id, contents, plan.chunk_size);
            &&& forall|i: int|
                0 <= i < parcels.len() ==> packed(#[trigger] parcels[i], chunks, plan.blobs)
                    && 0 <= parcels[i].blob < blobs
            &&& forall|i: int, j: int|
                0 <= i < j < parcels.len() ==> (#[trigger] parcels[i]).blob < (
                #[trigger] parcels[j]).blob
            &&& forall|blob: int|
                0 <= blob < blobs ==> (#[trigger] is_sent(parcels, blob) <==> places_of(
                    plan.blobs,
                    blob,
                    plan.blobs.len() as int,
                ).len() > 0)
            &&& forall|i: int|
                0 <= i < parcels.len() - 1 ==> (
                #[trigger] parcels[i]).completed_files.len() == 0
            &&& parcels.len() > 0 ==> {
                let markers = parcels.last().completed_files;
                &&& markers.len() == 1
                &&& markers[0].file_id == file_id
                &&& markers[0].total_chunks == chunks.len()
                &&& markers[0].full_content_hash == blake2b256_digest(contents)
            }
        }),
{
    lemma_parcels(
        chunks_of(file_id, contents, plan.chunk_size),
        plan.blobs,
        marker_of(file_id, contents, plan.blobs.len() as int),
        0,
        blobs,
    );
}

/// Measuring a vault gives the layout of every blob's file under the blob's identity, in the order
/// of the blobs.
pub proof fn law_vault_is_measured(vault: Vault, images: Seq<Seq<u8>>, at: int, out: Seq<
    (BlobId, BlobLayoutStats),
>)
    requires
        0 <= at <= vault.blobs@.len(),
        out.len() == at,
        forall|i: int|
            at <= i < vault.blobs@.len() ==> (#[trigger] layout_in(
                vault.blobs@[i]@,
                images[i],
            )) is Some && layout_in(vault.blobs@[i]@, images[i])->0 is Ok,
    ensures
        ({
            let found = layouts_in(vault, images, at, out);
            &&& found is Some && found->0 is Ok
            &&& found->0->Ok_0.len() == vault.blobs@.len()
            &&& forall|i: int| 0 <= i < at ==> #[trigger] found->0->Ok_0[i] == out[i]
            &&& forall|i: int|
                at <= i < vault.blobs@.len() ==> (#[trigger] found->0->Ok_0[i]).0
                    == vault.blobs@[i].blob_id && layout_in(vault.blobs@[i]@, images[i])->0->Ok_0
                    == found->0->Ok_0[i].1
        }),
    decreases vault.blobs@.len() - at,
{
    if at < vault.blobs@.len() {
        let stats = layout_in(vault.blobs@[at]@, images[at])->0->Ok_0;
        let more = out.push((vault.blobs@[at].blob_id, stats));
        law_vault_is_measured(vault, images, at + 1, more);
        let found = layouts_in(vault, images, at, out)->0->Ok_0;
        assert(found[at] == more[at]);
        assert forall|i: int| 0 <= i < at implies #[trigger] found[i] == out[i] by {
            assert(more[i] == out[i]);
        }
    }
}

/// Where a file cannot be measured, the reason is the one that reading its index gives: it has no
/// slot that opens, the index that its slot gives is not authentic or broken, or it lists a chunk
/// that ends beyond the largest offset.
pub proof fn law_layout_is_refused_for_the_index(b: BlobView, image: Seq<u8>)
    requires
        image.len() >= 4096,
    ensures
        b.locators(slots_in(image)).len() == 0 ==> layout_in(b, image) == Some(
            Err::<BlobLayoutStats, VaultError>(VaultError::NoValidLocator),
        ),
        b.locators(slots_in(image)).len() > 0 && lies_in(b.active(image), image) && index_at(
            b,
            b.active(image),
            image,
        ) is Err ==> layout_in(b, image) == Some(
            Err::<BlobLayoutStats, VaultError>(index_at(b, b.active(image), image)->Err_0),
        ),
        b.locators(slots_in(image)).len() > 0 && lies_in(b.active(image), image) && index_at(
            b,
            b.active(image),
            image,
        ) is Ok && ends_beyond(index_at(b, b.active(image), image)->Ok_0.0) ==> layout_in(
            b,
            image,
        ) == Some(
            Err::<BlobLayoutStats, VaultError>(VaultError::IntegerOverflow),
        ),
{
    let locator = b.active(image);
    if lies_in(locator, image) && locator.index_length == 0 {
        assert(image.subrange(
            locator.index_offset as int,
            locator.index_offset + locator.index_length,
        ) =~= Seq::empty());
    }
}

/// The first file that cannot be measured ends the measuring of a vault.
pub proof fn law_unmeasurable_file_ends_it(
    vault: Vault,
    images: Seq<Seq<u8>>,
    at: int,
    out: Seq<(BlobId, BlobLayoutStats)>,
    bad: int,
)
    requires
        0 <= at <= bad < vault.blobs@.len(),
        forall|i: int|
            at <= i < bad ==> (#[trigger] layout_in(vault.blobs@[i]@, images[i])) is Some
                && layout_in(vault.blobs@[i]@, images[i])->0 is Ok,
        !(layout_in(vault.blobs@[bad]@, images[bad]) is Some && layout_in(
            vault.blobs@[bad]@,
            images[bad],
        )->0 is Ok),
    ensures
        match layout_in(vault.blobs@[bad]@, images[bad]) {
            Some(Err(error)) => layouts_in(vault, images, at, out) == Some(
                Err::<Seq<(BlobId, BlobLayoutStats)>, VaultError>(error),
            ),
            _ => layouts_in(vault, images, at, out) is None,
        },
    decreases bad - at,
{
    if at < bad {
        let stats = layout_in(vault.blobs@[at]@, images[at])->0->Ok_0;
        law_unmeasurable_file_ends_it(
            vault,
            images,
            at + 1,
            out.push((vault.blobs@[at].blob_id, stats)),
            bad,
        );
    }
}

/// A range of a file is refused where the file may not be read as a whole or its chunks are not all
/// known, and where the range ends beyond the largest offset. Nothing is asked for where there is
/// nothing to read. Otherwise reading starts with the chunk that the offset lies in.
pub proof fn law_range_is_refused_or_begun(
    v: VaultView,
    file_id: Seq<u8>,
    offset: u64,
    length: u64,
    k: int,
)
    ensures
        ({
            let start = v.range_start(file_id, offset, length);
            let refused = v.index.incompleteness(file_id);
            let list = v.index.ordered(file_id);
            let size = bytes_from(list->Ok_0, 0);
            &&& refused is Some ==> start == StepView::<RangeView, Seq<u8>>::Done(
                Err(refused->0),
            )
            &&& refused is None && list is Err ==> start == StepView::<
                RangeView,
                Seq<u8>,
            >::Done(Err(list->Err_0))
            &&& refused is None && list is Ok && size > u64::MAX ==> start == StepView::<
                RangeView,
                Seq<u8>,
            >::Done(Err(VaultError::IntegerOverflow))
            &&& refused is None && list is Ok && size <= u64::MAX && (offset >= size || length
                == 0) ==> start == StepView::<RangeView, Seq<u8>>::Done(Ok(Seq::empty()))
            &&& refused is None && list is Ok && size <= u64::MAX && offset < size && length > 0
                && offset + length > u64::MAX ==> start == StepView::<RangeView, Seq<u8>>::Done(
                Err(VaultError::IntegerOverflow),
            )
            &&& refused is None && list is Ok && size <= u64::MAX && offset < size && length > 0
                && offset + length <= u64::MAX && 0 <= k < list->Ok_0.len() && size - bytes_from(
                list->Ok_0,
                k,
            ) <= offset < size - bytes_from(list->Ok_0, k + 1) ==> begins_with(
                v,
                list->Ok_0[k],
                k,
                Seq::empty(),
                start,
            )
        }),
{
    let list = v.index.ordered(file_id);
    if list is Ok {
        lemma_bytes(list->Ok_0);
        let chunks = list->Ok_0;
        let size = bytes_from(chunks, 0);
        if v.index.incompleteness(file_id) is None && size <= u64::MAX && offset < size && length
            > 0 && offset + length <= u64::MAX && 0 <= k < chunks.len() && size - bytes_from(
            chunks,
            k,
        ) <= offset < size - bytes_from(chunks, k + 1) {
            let range = RangeView {
                chunks,
                next: 0,
                offset: offset as int,
                end: smaller(offset + length, size),
                out: Seq::empty(),
                at: 0,
            };
            lemma_begins(v, range, 0, k);
        }
    }
}

/// Reading a range goes from chunk to chunk: a chunk that is not authentic ends it with that error,
/// and one that is adds the part of it that lies in the range. It is over where the next chunk
/// starts behind the range, or there is none.
pub proof fn law_range_goes_from_chunk_to_chunk(v: VaultView, range: RangeView, reply: Reply)
    requires
        range.valid(v),
        reply is Bytes,
    ensures
        ({
            let k = range.next;
            let size = bytes_from(range.chunks, 0);
            let start = size - bytes_from(range.chunks, k);
            let end = size - bytes_from(range.chunks, k + 1);
            let step = range.on_reply(v, reply);
            match v.blobs[range.at].chunk_of(range.chunks[k].entry, reply->Bytes_0@) {
                Err(error) => step == StepView::<RangeView, Seq<u8>>::Done(Err(error)),
                Ok(plaintext) => {
                    let from = if range.offset > start {
                        range.offset - start
                    } else {
                        0
                    };
                    let to = if range.end < end {
                        range.end - start
                    } else {
                        end - start
                    };
                    let out = range.out + plaintext.subrange(from, to);
                    if k + 1 >= range.chunks.len() || end >= range.end {
                        step == StepView::<RangeView, Seq<u8>>::Done(Ok(out))
                    } else {
                        begins_with(v, range.chunks[k + 1], k + 1, out, step)
                    }
                },
            }
        }),
{
    let k = range.next;
    lemma_starts(range.chunks, k);
    lemma_starts(range.chunks, k + 1);
}

/// Reading asks the blob that the chunk is in for the frame of the chunk, with what was read before
/// it at hand. It is refused where no
/// blob of the vault is the one that the chunk is in, and where the frame is longer than memory.
pub open spec fn begins_with(
    v: VaultView,
    chunk: LocatedChunk,
    k: int,
    out: Seq<u8>,
    start: StepView<RangeView, Seq<u8>>,
) -> bool {
    let at = position_of(v.blobs, chunk.blob_id, 0);
    if at is None {
        start == StepView::<RangeView, Seq<u8>>::Done(Err(VaultError::BlobNotFound))
    } else if chunk.entry.plaintext_length + 40 > u64::MAX || chunk.entry.plaintext_length + 40
        > usize::MAX {
        start == StepView::<RangeView, Seq<u8>>::Done(Err(VaultError::IntegerOverflow))
    } else {
        &&& start is Ask
        &&& start->Ask_0.next == k
        &&& start->Ask_0.at == at->0
        &&& start->Ask_0.out == out
        &&& start->Ask_0.asks() == (RequestView::Read {
            offset: chunk.entry.offset_in_blob,
            length: (chunk.entry.plaintext_length + 40) as usize,
        })
    }
}

proof fn lemma_begins(v: VaultView, range: RangeView, from: int, k: int)
    requires
        0 <= from <= k < range.chunks.len(),
        range.out.len() == 0,
        range.offset < range.end,
        bytes_from(range.chunks, 0) - bytes_from(range.chunks, k) <= range.offset < bytes_from(
            range.chunks,
            0,
        ) - bytes_from(range.chunks, k + 1),
    ensures
        begins_with(v, range.chunks[k], k, Seq::empty(), range.going_on(v, from, Seq::empty())),
    decreases k - from,
{
    lemma_starts(range.chunks, from);
    lemma_starts(range.chunks, k);
    if from < k {
        lemma_starts(range.chunks, from + 1);
        lemma_tails(range.chunks, from + 1, k);
        lemma_begins(v, range, from + 1, k);
    }
}

proof fn lemma_starts(chunks: Seq<LocatedChunk>, k: int)
    requires
        0 <= k <= chunks.len(),
    ensures
        total_len(chunks.take(k)) == bytes_from(chunks, 0) - bytes_from(chunks, k),
    decreases k,
{
    if k > 0 {
        lemma_starts(chunks, k - 1);
        assert(chunks.take(k).drop_last() =~= chunks.take(k - 1));
        assert(chunks.take(k).last() == chunks[k - 1]);
    }
}

proof fn lemma_tails(chunks: Seq<LocatedChunk>, from: int, k: int)
    requires
        0 <= from <= k <= chunks.len(),
    ensures
        bytes_from(chunks, from) >= bytes_from(chunks, k),
    decreases k - from,
{
    if from < k {
        lemma_tails(chunks, from + 1, k);
    }
}

} // verus!
