//! Files into the vault and out of it.

use vstd::prelude::*;
use vstd::slice::slice_subrange;

use crate::bytes::{append_bytes, bytes_equal, checked_add};
use crate::crypto::{blake2b256, blake2b256_digest};
use crate::error::VaultError;
use crate::files::{lemma_total_len_grows, sum_lengths, total_len};
use crate::index::{new_chunk_views, new_complete_views, NewChunk, NewChunkView, NewFileComplete};
use crate::plan::{chunks_for, chunks_of, group_chunks, lemma_plan_shape, FilePlan};
use crate::read::{frame_fits, frame_request, on_frame, ReadChunk};
use crate::session::position_of;
use crate::storage::{answers, Reply, Request, RequestView, Step, StepView};
use crate::types::{CompleteView, FileId};
use crate::vault::{
    located_chunk_views, CursorView, LocatedChunk, LocatedChunkEntry, Vault, VaultFileCursor,
    VaultView,
};
use crate::write::{WriteChunks, WriteChunksResult};

verus! {

/// What one blob is to receive of a file.
pub struct Parcel {
    pub blob: usize,
    pub chunks: Vec<NewChunk>,
    pub completed_files: Vec<NewFileComplete>,
}

/// What a [`Parcel`] holds.
#[verifier::ext_equal]
pub struct ParcelView {
    pub blob: int,
    pub chunks: Seq<NewChunkView>,
    pub completed_files: Seq<CompleteView>,
}

impl View for Parcel {
    type V = ParcelView;

    open spec fn view(&self) -> ParcelView {
        ParcelView {
            blob: self.blob as int,
            chunks: new_chunk_views(self.chunks@),
            completed_files: new_complete_views(self.completed_files@),
        }
    }
}

/// The views of a sequence of parcels.
pub open spec fn parcel_views(parcels: Seq<Parcel>) -> Seq<ParcelView> {
    Seq::new(parcels.len(), |i: int| parcels[i]@)
}

/// What is sent to the blobs from `from` on: to each that receives chunks, in the order of the
/// blobs, and to the last of them the completion marker.
pub open spec fn parcels_from(
    chunks: Seq<NewChunkView>,
    blobs: Seq<int>,
    marker: CompleteView,
    from: int,
    count: int,
) -> Seq<ParcelView>
    decreases count - from,
{
    if from >= count {
        Seq::empty()
    } else {
        let rest = parcels_from(chunks, blobs, marker, from + 1, count);
        let here = chunks_for(chunks, blobs, from, blobs.len() as int);
        if here.len() == 0 {
            rest
        } else {
            seq![
                ParcelView {
                    blob: from,
                    chunks: here,
                    completed_files: if rest.len() == 0 {
                        seq![marker]
                    } else {
                        Seq::empty()
                    },
                },
            ] + rest
        }
    }
}

/// The completion marker of a file.
pub open spec fn marker_of(file_id: Seq<u8>, contents: Seq<u8>, chunk_count: int) -> CompleteView {
    CompleteView {
        file_id,
        total_chunks: chunk_count as u64,
        full_content_hash: blake2b256_digest(contents),
    }
}

/// What storing a file sends to so many blobs under a plan.
pub open spec fn parcels_of(
    file_id: Seq<u8>,
    contents: Seq<u8>,
    plan: FilePlan,
    blobs: int,
) -> Seq<ParcelView> {
    parcels_from(
        chunks_of(file_id, contents, plan.chunk_size),
        plan.blobs,
        marker_of(file_id, contents, plan.blobs.len() as int),
        0,
        blobs,
    )
}

impl VaultView {
    /// What storing a file sends to the blobs under a plan.
    pub open spec fn parcels(self, file_id: Seq<u8>, contents: Seq<u8>, plan: FilePlan) -> Seq<
        ParcelView,
    > {
        parcels_of(file_id, contents, plan, self.blobs.len() as int)
    }
}

/// Stores a file: one transaction for each blob that receives a part of it.
pub struct PutFile {
    pub at: usize,
    pub operation: WriteChunks,
    /// What is still to be sent, the next parcel last.
    pub waiting: Vec<Parcel>,
}

impl PutFile {
    /// The blobs are those of the vault.
    pub open spec fn valid(self, v: VaultView) -> bool {
        &&& self.at < v.blobs.len()
        &&& self.operation.valid(v.blobs[self.at as int])
        &&& forall|i: int|
            0 <= i < self.waiting@.len() ==> (#[trigger] self.waiting@[i]).blob < v.blobs.len()
    }

    /// What is still to be sent, the next parcel first.
    pub open spec fn queue(self) -> Seq<ParcelView> {
        parcel_views(self.waiting@).reverse()
    }

    /// The operation writes a parcel and has not begun.
    pub open spec fn sends(self, parcel: ParcelView) -> bool {
        &&& self.at == parcel.blob
        &&& self.operation.new_chunks() == parcel.chunks
        &&& self.operation.new_completes() == parcel.completed_files
        &&& self.operation.stage is Lock
    }

    /// What comes of a step of the transaction, and what the vault is then: the transaction goes
    /// on, fails, or is over; in the last case its index is known and the next parcel is sent.
    pub open spec fn comes_of(
        self,
        v: VaultView,
        step: Step<WriteChunks, WriteChunksResult>,
        r: Step<PutFile, ()>,
        now: VaultView,
    ) -> bool {
        match step {
            Step::Ask(operation) => {
                &&& now == v
                &&& r matches Step::Ask(next)
                &&& next.at == self.at
                &&& next.operation == operation
                &&& next.queue() == self.queue()
            },
            Step::Done(Err(error)) => {
                &&& now == v
                &&& r == Step::<PutFile, ()>::Done(Err(error))
            },
            Step::Done(Ok(result)) => {
                &&& now == v.with_blob_index(self.at as int, result.index@)
                &&& if self.queue().len() == 0 {
                    r == Step::<PutFile, ()>::Done(Ok(()))
                } else {
                    &&& r matches Step::Ask(next)
                    &&& next.sends(self.queue()[0])
                    &&& next.queue() == self.queue().skip(1)
                }
            },
        }
    }

    /// What may come of a reply, and what the vault is then.
    pub open spec fn on_reply(
        self,
        v: VaultView,
        reply: Reply,
        r: Step<PutFile, ()>,
        now: VaultView,
    ) -> bool {
        exists|step: Step<WriteChunks, WriteChunksResult>|
            #[trigger] self.operation.on_reply(v.blobs[self.at as int], reply, step)
                && self.comes_of(v, step, r, now)
    }

    /// What to ask, and of which blob's file.
    pub fn request(&self, vault: &Vault) -> (r: (usize, Request))
        requires
            self.valid(vault@),
        ensures
            r.0 == self.at,
            r.1@ == self.operation.asks(),
    {
        (self.at, self.operation.request(&vault.blobs[self.at]))
    }

    /// Takes the reply to what was asked.
    pub fn reply(self, vault: &mut Vault, reply: Reply) -> (r: Step<PutFile, ()>)
        requires
            self.valid(old(vault)@),
            answers(self.operation.asks(), reply),
        ensures
            self.on_reply(old(vault)@, reply, r, final(vault)@),
            r is Ask ==> r->Ask_0.valid(final(vault)@),
            old(vault)@.valid() ==> final(vault)@.valid(),
            final(vault).blobs == old(vault).blobs,
    {
        let PutFile { at, operation, waiting } = self;
        let ghost queue = parcel_views(waiting@).reverse();
        let step = operation.reply(&vault.blobs[at], reply);
        let ghost step_taken = step;
        match step {
            Step::Ask(operation) => {
                let r = Step::Ask(PutFile { at, operation, waiting });
                proof {
                    assert(self.operation.on_reply(vault@.blobs[at as int], reply, step_taken));
                }
                r
            },
            Step::Done(Err(error)) => {
                proof {
                    assert(self.operation.on_reply(vault@.blobs[at as int], reply, step_taken));
                }
                Step::Done(Err(error))
            },
            Step::Done(Ok(result)) => {
                let ghost blobs = vault@.blobs;
                vault.store_index(at, &result.index);
                let mut waiting = waiting;
                let ghost before = waiting@;
                proof {
                    assert(self.operation.on_reply(blobs[at as int], reply, step_taken));
                }
                match waiting.pop() {
                    None => Step::Done(Ok(())),
                    Some(parcel) => {
                        proof {
                            assert(before.last() == parcel);
                            assert(before.last().blob < blobs.len());
                            assert(parcel_views(before).reverse()[0] == parcel@);
                            assert(parcel_views(before).reverse().skip(1) =~= parcel_views(
                                waiting@,
                            ).reverse());
                        }
                        let Parcel { blob, chunks, completed_files } = parcel;
                        let operation = vault.blobs[blob].write_chunks(chunks, completed_files);
                        Step::Ask(PutFile { at: blob, operation, waiting })
                    },
                }
            },
        }
    }
}

impl Vault {
    /// Starts storing a file. A file of which any chunk is known is refused, and so is one that no
    /// blob has room for.
    pub fn put_file(&mut self, file_id: FileId, contents: &[u8]) -> (r: Step<PutFile, ()>)
        requires
            old(self)@.valid(),
        ensures
            if old(self)@.index.file_chunks(file_id@).len() > 0 {
                &&& r == Step::<PutFile, ()>::Done(Err(VaultError::FileAlreadyExists))
                &&& final(self)@ == old(self)@
            } else {
                &&& final(self)@ == old(self)@.file_plan(contents@.len() as int).1
                &&& match old(self)@.file_plan(contents@.len() as int).0 {
                    Err(error) => r == Step::<PutFile, ()>::Done(Err(error)),
                    Ok(plan) => {
                        let parcels = old(self)@.parcels(file_id@, contents@, plan);
                        &&& parcels.len() > 0
                        &&& r matches Step::Ask(next)
                        &&& next.sends(parcels[0])
                        &&& next.queue() == parcels.skip(1)
                    },
                }
            },
            r is Ask ==> r->Ask_0.valid(final(self)@),
            final(self)@.valid(),
            final(self).blobs == old(self).blobs,
            final(self).index == old(self).index,
    {
        if self.index.knows_file(file_id) {
            return Step::Done(Err(VaultError::FileAlreadyExists));
        }
        let plan = match self.plan_file_chunks(contents.len()) {
            Ok(plan) => plan,
            Err(error) => return Step::Done(Err(error)),
        };
        let count: usize = self.blobs.len();
        proof {
            lemma_plan_shape(old(self)@, contents@, plan@);
            assert forall|j: int| 0 <= j < plan.blobs@.len() implies (#[trigger] plan.blobs@[j])
                < count by {
                assert(plan@.blobs[j] == plan.blobs@[j]);
            }
        }
        let groups = group_chunks(file_id, contents, &plan, count);
        let marker = NewFileComplete {
            file_id,
            total_chunks: plan.blobs.len() as u64,
            full_content_hash: blake2b256(contents),
        };
        let mut waiting = make_parcels(
            groups,
            marker,
            Ghost(chunks_of(file_id@, contents@, plan.chunk_size as int)),
            Ghost(plan@.blobs),
        );
        let ghost parcels = old(self)@.parcels(file_id@, contents@, plan@);
        let ghost before = waiting@;
        proof {
            assert(marker@ == marker_of(file_id@, contents@, plan@.blobs.len() as int));
            assert(parcel_views(before).reverse() == parcels);
            lemma_some_parcel(
                chunks_of(file_id@, contents@, plan.chunk_size as int),
                plan@.blobs,
                marker@,
                0,
                count as int,
                plan@.blobs[0],
            );
            assert(parcel_views(before).len() == before.len());
        }
        match waiting.pop() {
            None => Step::Done(Err(VaultError::InvalidConfig)),
            Some(parcel) => {
                proof {
                    assert(before.last() == parcel);
                    assert(parcel_views(before).reverse()[0] == parcel@);
                    assert(parcels.skip(1) =~= parcel_views(waiting@).reverse());
                    assert forall|i: int| 0 <= i < waiting@.len() implies (
                    #[trigger] waiting@[i]).blob < count by {
                        assert(before[i] == waiting@[i]);
                    }
                    assert(before[before.len() - 1].blob < count);
                }
                let Parcel { blob, chunks, completed_files } = parcel;
                let operation = self.blobs[blob].write_chunks(chunks, completed_files);
                Step::Ask(PutFile { at: blob, operation, waiting })
            },
        }
    }
}

/// Where any chunk goes to a blob there is something to send.
proof fn lemma_some_parcel(
    chunks: Seq<NewChunkView>,
    blobs: Seq<int>,
    marker: CompleteView,
    from: int,
    count: int,
    blob: int,
)
    requires
        blobs.len() > 0,
        blobs[0] == blob,
        0 <= from <= blob < count,
    ensures
        parcels_from(chunks, blobs, marker, from, count).len() > 0,
    decreases blob - from,
{
    if from < blob {
        lemma_some_parcel(chunks, blobs, marker, from + 1, count, blob);
    } else {
        lemma_first_goes(chunks, blobs, blob, blobs.len() as int);
    }
}

proof fn lemma_first_goes(chunks: Seq<NewChunkView>, blobs: Seq<int>, blob: int, n: int)
    requires
        1 <= n <= blobs.len(),
        blobs[0] == blob,
    ensures
        chunks_for(chunks, blobs, blob, n).len() > 0,
    decreases n,
{
    if n > 1 {
        lemma_first_goes(chunks, blobs, blob, n - 1);
    }
}

/// Makes parcels of the groups that hold anything, the first one last.
fn make_parcels(
    groups: Vec<Vec<NewChunk>>,
    marker: NewFileComplete,
    Ghost(chunks): Ghost<Seq<NewChunkView>>,
    Ghost(blobs): Ghost<Seq<int>>,
) -> (r: Vec<Parcel>)
    requires
        forall|b: int|
            0 <= b < groups@.len() ==> new_chunk_views((#[trigger] groups@[b])@) == chunks_for(
                chunks,
                blobs,
                b,
                blobs.len() as int,
            ),
    ensures
        parcel_views(r@).reverse() == parcels_from(
            chunks,
            blobs,
            marker@,
            0,
            groups@.len() as int,
        ),
        forall|i: int| 0 <= i < r@.len() ==> (#[trigger] r@[i]).blob < groups@.len(),
{
    let mut groups = groups;
    let ghost all = groups@;
    let ghost count = groups@.len() as int;
    let mut parcels: Vec<Parcel> = Vec::new();
    let mut from: usize = groups.len();
    assert(parcel_views(parcels@).reverse() =~= parcels_from(chunks, blobs, marker@, count, count));
    while from > 0
        invariant
            from <= count,
            groups@ == all.take(from as int),
            count == all.len(),
            forall|b: int|
                0 <= b < count ==> new_chunk_views((#[trigger] all[b])@) == chunks_for(
                    chunks,
                    blobs,
                    b,
                    blobs.len() as int,
                ),
            parcel_views(parcels@).reverse() == parcels_from(
                chunks,
                blobs,
                marker@,
                from as int,
                count,
            ),
            forall|i: int| 0 <= i < parcels@.len() ==> (#[trigger] parcels@[i]).blob < count,
        decreases from,
    {
        from -= 1;
        let ghost before = parcels@;
        let ghost rest = parcels_from(chunks, blobs, marker@, from + 1, count);
        proof {
            assert(parcel_views(before).reverse().len() == before.len());
        }
        match groups.pop() {
            None => {
                assert(false);
            },
            Some(group) => {
                assert(group == all[from as int]);
                assert(groups@ =~= all.take(from as int));
                assert(new_chunk_views(group@).len() == group@.len());
                if group.len() > 0 {
                    let mut completed_files: Vec<NewFileComplete> = Vec::new();
                    if parcels.len() == 0 {
                        completed_files.push(marker);
                    }
                    let parcel = Parcel { blob: from, chunks: group, completed_files };
                    parcels.push(parcel);
                    proof {
                        let first = ParcelView {
                            blob: from as int,
                            chunks: chunks_for(chunks, blobs, from as int, blobs.len() as int),
                            completed_files: if rest.len() == 0 {
                                seq![marker@]
                            } else {
                                Seq::empty()
                            },
                        };
                        assert(parcel@.completed_files =~= first.completed_files);
                        assert(parcel@ =~= first);
                        assert(parcel_views(parcels@) =~= parcel_views(before).push(parcel@));
                        assert(parcel_views(parcels@).reverse() =~= seq![first] + parcel_views(
                            before,
                        ).reverse());
                    }
                }
            },
        }
    }
    parcels
}

/// Reads a range of a file, one chunk after the other.
pub struct ReadRange {
    pub chunks: Vec<LocatedChunkEntry>,
    pub next: usize,
    pub chunk_start: u64,
    pub offset: u64,
    pub end: u64,
    pub out: Vec<u8>,
    pub at: usize,
}

/// What a [`ReadRange`] is about: the chunks of the file, the one that is being read and the blob
/// that it is in, the range, and what was read.
#[verifier::ext_equal]
pub struct RangeView {
    pub chunks: Seq<LocatedChunk>,
    pub next: int,
    pub offset: int,
    pub end: int,
    pub out: Seq<u8>,
    pub at: int,
}

impl View for ReadRange {
    type V = RangeView;

    open spec fn view(&self) -> RangeView {
        RangeView {
            chunks: located_chunk_views(self.chunks@),
            next: self.next as int,
            offset: self.offset as int,
            end: self.end as int,
            out: self.out@,
            at: self.at as int,
        }
    }
}

/// The greater of two numbers.
pub open spec fn larger(a: int, b: int) -> int {
    if a > b {
        a
    } else {
        b
    }
}

/// The smaller of two numbers.
pub open spec fn smaller(a: int, b: int) -> int {
    if a < b {
        a
    } else {
        b
    }
}

impl RangeView {
    /// Where in the file the chunk starts.
    pub open spec fn start_of(self, k: int) -> int {
        total_len(self.chunks.take(k))
    }

    /// Where in the file the chunk ends.
    pub open spec fn end_of(self, k: int) -> int {
        self.start_of(k) + self.chunks[k].entry.plaintext_length
    }

    /// The part of a chunk's plaintext that lies in the range.
    pub open spec fn part(self, k: int, plaintext: Seq<u8>) -> Seq<u8> {
        plaintext.subrange(
            larger(self.offset, self.start_of(k)) - self.start_of(k),
            smaller(self.end, self.end_of(k)) - self.start_of(k),
        )
    }

    /// The chunk and its blob are there, and the chunk touches the range.
    pub open spec fn valid(self, v: VaultView) -> bool {
        &&& 0 <= self.next < self.chunks.len()
        &&& 0 <= self.at < v.blobs.len()
        &&& total_len(self.chunks) <= u64::MAX
        &&& self.offset < self.end
        &&& frame_fits(self.chunks[self.next].entry)
        &&& self.offset < self.end_of(self.next)
        &&& self.start_of(self.next) < self.end
    }

    /// What is asked for.
    pub open spec fn asks(self) -> RequestView {
        frame_request(self.chunks[self.next].entry)
    }

    /// What comes of going on with the `k`-th chunk: chunks in front of the range are passed over,
    /// and behind the range it is over.
    pub open spec fn going_on(self, v: VaultView, k: int, out: Seq<u8>) -> StepView<
        RangeView,
        Seq<u8>,
    >
        decreases self.chunks.len() - k,
    {
        if k >= self.chunks.len() {
            StepView::Done(Ok(out))
        } else if self.end_of(k) <= self.offset {
            self.going_on(v, k + 1, out)
        } else if self.start_of(k) >= self.end {
            StepView::Done(Ok(out))
        } else {
            match position_of(v.blobs, self.chunks[k].blob_id, 0) {
                None => StepView::Done(Err(VaultError::BlobNotFound)),
                Some(at) => if frame_fits(self.chunks[k].entry) {
                    StepView::Ask(RangeView { next: k, out, at, ..self })
                } else {
                    StepView::Done(Err(VaultError::IntegerOverflow))
                },
            }
        }
    }

    /// What is decided on a reply.
    pub open spec fn on_reply(self, v: VaultView, reply: Reply) -> StepView<RangeView, Seq<u8>> {
        match on_frame(v.blobs[self.at], self.chunks[self.next].entry, reply) {
            StepView::Done(Ok(plaintext)) => self.going_on(
                v,
                self.next + 1,
                self.out + self.part(self.next, plaintext),
            ),
            StepView::Done(Err(error)) => StepView::Done(Err(error)),
            StepView::Ask(_) => arbitrary(),
        }
    }
}

impl VaultView {
    /// What reading a range of a file starts with.
    pub open spec fn range_start(self, file_id: Seq<u8>, offset: u64, length: u64) -> StepView<
        RangeView,
        Seq<u8>,
    > {
        match (self.index.incompleteness(file_id), self.index.ordered(file_id)) {
            (Some(error), _) => StepView::Done(Err(error)),
            (None, Err(error)) => StepView::Done(Err(error)),
            (None, Ok(chunks)) => {
                let size = total_len(chunks);
                if size > u64::MAX {
                    StepView::Done(Err(VaultError::IntegerOverflow))
                } else if offset >= size || length == 0 {
                    StepView::Done(Ok(Seq::empty()))
                } else if offset + length > u64::MAX {
                    StepView::Done(Err(VaultError::IntegerOverflow))
                } else {
                    (RangeView {
                        chunks,
                        next: 0,
                        offset: offset as int,
                        end: smaller(offset + length, size),
                        out: Seq::empty(),
                        at: 0,
                    }).going_on(self, 0, Seq::empty())
                }
            },
        }
    }
}

impl ReadRange {
    /// Where the next chunk starts is known.
    pub open spec fn valid(self, v: VaultView) -> bool {
        self@.valid(v) && self.chunk_start == self@.start_of(self.next as int)
    }

    /// What to ask, and of which blob's file.
    pub fn request(&self, vault: &Vault) -> (r: (usize, Request))
        requires
            self.valid(vault@),
        ensures
            r.0 == self@.at,
            r.1@ == self@.asks(),
    {
        assert(self@.chunks[self.next as int].entry == self.chunks@[self.next as int].entry@);
        let operation = ReadChunk { entry: self.chunks[self.next].entry };
        (self.at, operation.request())
    }

    /// Takes the reply to what was asked.
    pub fn reply(self, vault: &Vault, reply: Reply) -> (r: Step<ReadRange, Vec<u8>>)
        requires
            self.valid(vault@),
            answers(self@.asks(), reply),
        ensures
            r@ == self@.on_reply(vault@, reply),
            r is Ask ==> r->Ask_0.valid(vault@),
    {
        let ghost v = self@;
        let ReadRange { chunks, next, chunk_start, offset, end, out, at } = self;
        let entry = chunks[next].entry;
        assert(v.chunks[next as int].entry == entry@);
        let operation = ReadChunk { entry };
        let plaintext = match operation.reply(&vault.blobs[at], reply) {
            Step::Done(Ok(plaintext)) => plaintext,
            Step::Done(Err(error)) => return Step::Done(Err(error)),
            Step::Ask(_) => {
                assert(false);
                return Step::Done(Err(VaultError::AeadDecryptFailed));
            },
        };
        proof {
            lemma_total_len_grows(v.chunks, next + 1);
            assert(v.chunks.take(next + 1).drop_last() =~= v.chunks.take(next as int));
            assert(v.chunks.take(next + 1).last() == v.chunks[next as int]);
            lemma_total_len_grows(v.chunks, next as int);
        }
        let chunk_end: u64 = chunk_start + entry.plaintext_length;
        let from: u64 = if offset > chunk_start {
            offset - chunk_start
        } else {
            0
        };
        let to: u64 = if end < chunk_end {
            end - chunk_start
        } else {
            entry.plaintext_length
        };
        let mut out = out;
        append_bytes(&mut out, slice_subrange(&plaintext, from as usize, to as usize));
        assert(out@ =~= v.out + v.part(next as int, plaintext@));
        let count: usize = chunks.len();
        assert(next < count);
        go_on(vault, chunks, next + 1, chunk_end, offset, end, out, Ghost(v))
    }
}

/// Finds the next chunk that touches the range.
fn go_on(
    vault: &Vault,
    chunks: Vec<LocatedChunkEntry>,
    next: usize,
    chunk_start: u64,
    offset: u64,
    end: u64,
    out: Vec<u8>,
    Ghost(v): Ghost<RangeView>,
) -> (r: Step<ReadRange, Vec<u8>>)
    requires
        v.chunks == located_chunk_views(chunks@),
        v.offset == offset,
        v.end == end,
        offset < end,
        next <= chunks@.len(),
        chunk_start == v.start_of(next as int),
        total_len(v.chunks) <= u64::MAX,
    ensures
        r@ == v.going_on(vault@, next as int, out@),
        r is Ask ==> r->Ask_0.valid(vault@),
{
    let mut k: usize = next;
    let mut start: u64 = chunk_start;
    while k < chunks.len()
        invariant
            v.chunks == located_chunk_views(chunks@),
            v.offset == offset,
            v.end == end,
            next <= k <= chunks@.len(),
            start == v.start_of(k as int),
            total_len(v.chunks) <= u64::MAX,
            v.going_on(vault@, next as int, out@) == v.going_on(vault@, k as int, out@),
        ensures
            k < chunks@.len() ==> v.offset < v.end_of(k as int),
        decreases chunks@.len() - k,
    {
        let length: u64 = chunks[k].entry.plaintext_length;
        proof {
            assert(v.chunks[k as int] == chunks@[k as int]@);
            lemma_total_len_grows(v.chunks, k + 1);
            assert(v.chunks.take(k + 1).drop_last() =~= v.chunks.take(k as int));
            assert(v.chunks.take(k + 1).last() == v.chunks[k as int]);
        }
        if start + length > offset {
            break;
        }
        start = start + length;
        k += 1;
    }
    if k >= chunks.len() {
        return Step::Done(Ok(out));
    }
    if start >= end {
        return Step::Done(Ok(out));
    }
    assert(v.chunks[k as int] == chunks@[k as int]@);
    let at: usize = match vault.blob_position(chunks[k].blob_id) {
        Ok(at) => at,
        Err(error) => return Step::Done(Err(error)),
    };
    match vault.blobs[at].read_chunk(&chunks[k].entry) {
        Step::Ask(_) => {
            let operation = ReadRange {
                chunks,
                next: k,
                chunk_start: start,
                offset,
                end,
                out,
                at,
            };
            assert(operation@ =~= (RangeView { next: k as int, out: out@, at: at as int, ..v }));
            Step::Ask(operation)
        },
        Step::Done(Err(error)) => Step::Done(Err(error)),
        Step::Done(Ok(_)) => {
            assert(false);
            Step::Done(Err(VaultError::IntegerOverflow))
        },
    }
}

impl Vault {
    /// Starts reading a range of a file. What lies behind the end of the file is left out.
    pub fn read_file_range(&self, file_id: FileId, offset: u64, length: u64) -> (r: Step<
        ReadRange,
        Vec<u8>,
    >)
        ensures
            r@ == self@.range_start(file_id@, offset, length),
            r is Ask ==> r->Ask_0.valid(self@),
    {
        match self.index.ensure_file_complete(file_id) {
            Ok(()) => {},
            Err(error) => return Step::Done(Err(error)),
        }
        let chunks = match self.index.ordered_file_chunks(file_id) {
            Ok(chunks) => chunks,
            Err(error) => return Step::Done(Err(error)),
        };
        let size: u64 = match sum_lengths(&chunks) {
            Ok(size) => size,
            Err(error) => return Step::Done(Err(error)),
        };
        let nothing: Vec<u8> = Vec::new();
        assert(nothing@ =~= Seq::empty());
        if offset >= size || length == 0 {
            return Step::Done(Ok(nothing));
        }
        let wanted: u64 = match checked_add(offset, length) {
            Ok(sum) => sum,
            Err(error) => return Step::Done(Err(error)),
        };
        let end: u64 = if wanted < size {
            wanted
        } else {
            size
        };
        let ghost v = RangeView {
            chunks: located_chunk_views(chunks@),
            next: 0,
            offset: offset as int,
            end: end as int,
            out: Seq::empty(),
            at: 0,
        };
        assert(v.chunks.take(0) =~= Seq::<LocatedChunk>::empty());
        go_on(self, chunks, 0, 0, offset, end, nothing, Ghost(v))
    }
}

/// Reads a whole file and checks it.
pub struct ReadFile {
    pub file_id: FileId,
    pub range: ReadRange,
}

/// What a [`ReadFile`] is about.
#[verifier::ext_equal]
pub struct ReadFileView {
    pub file_id: Seq<u8>,
    pub range: RangeView,
}

impl View for ReadFile {
    type V = ReadFileView;

    open spec fn view(&self) -> ReadFileView {
        ReadFileView { file_id: self.file_id@, range: self.range@ }
    }
}

impl VaultView {
    /// What is decided once the bytes of a file are there: they are held against the completion
    /// marker.
    pub open spec fn checked_contents(self, file_id: Seq<u8>, contents: Seq<u8>) -> Result<
        Seq<u8>,
        VaultError,
    > {
        match self.index.latest_complete(file_id) {
            None => Err(VaultError::IncompleteFile),
            Some(marker) => if blake2b256_digest(contents) == marker.entry.full_content_hash {
                Ok(contents)
            } else {
                Err(VaultError::FileHashMismatch)
            },
        }
    }

    /// What comes of a step of reading a whole file.
    pub open spec fn file_step(self, file_id: Seq<u8>, step: StepView<RangeView, Seq<u8>>) -> StepView<
        ReadFileView,
        Seq<u8>,
    > {
        match step {
            StepView::Ask(range) => StepView::Ask(ReadFileView { file_id, range }),
            StepView::Done(Err(error)) => StepView::Done(Err(error)),
            StepView::Done(Ok(contents)) => StepView::Done(
                self.checked_contents(file_id, contents),
            ),
        }
    }

    /// What reading a whole file starts with.
    pub open spec fn file_start(self, file_id: Seq<u8>) -> StepView<ReadFileView, Seq<u8>> {
        match self.index.size(file_id) {
            Err(error) => StepView::Done(Err(error)),
            Ok(size) => self.file_step(file_id, self.range_start(file_id, 0, size)),
        }
    }
}

impl Vault {
    /// Holds the bytes of a file against its completion marker.
    pub fn check_contents(&self, file_id: FileId, contents: Vec<u8>) -> (r: Result<
        Vec<u8>,
        VaultError,
    >)
        ensures
            match r {
                Ok(bytes) => self@.checked_contents(file_id@, contents@) == Ok::<
                    Seq<u8>,
                    VaultError,
                >(bytes@),
                Err(error) => self@.checked_contents(file_id@, contents@) == Err::<
                    Seq<u8>,
                    VaultError,
                >(error),
            },
    {
        let marker = match self.index.latest_complete(file_id) {
            Ok(marker) => marker,
            Err(error) => return Err(error),
        };
        if !bytes_equal(&blake2b256(&contents), &marker.entry.full_content_hash) {
            return Err(VaultError::FileHashMismatch);
        }
        Ok(contents)
    }

    fn wrap_file_step(&self, file_id: FileId, step: Step<ReadRange, Vec<u8>>) -> (r: Step<
        ReadFile,
        Vec<u8>,
    >)
        ensures
            r@ == self@.file_step(file_id@, step@),
            r is Ask ==> step is Ask && r->Ask_0.range == step->Ask_0,
    {
        match step {
            Step::Ask(range) => Step::Ask(ReadFile { file_id, range }),
            Step::Done(Err(error)) => Step::Done(Err(error)),
            Step::Done(Ok(contents)) => Step::Done(self.check_contents(file_id, contents)),
        }
    }

    /// Starts reading a whole file.
    pub fn read_file(&self, file_id: FileId) -> (r: Step<ReadFile, Vec<u8>>)
        ensures
            r@ == self@.file_start(file_id@),
            r is Ask ==> r->Ask_0.range.valid(self@),
    {
        let size: u64 = match self.file_size(file_id) {
            Ok(size) => size,
            Err(error) => return Step::Done(Err(error)),
        };
        let step = self.read_file_range(file_id, 0, size);
        self.wrap_file_step(file_id, step)
    }
}

impl ReadFile {
    /// What to ask, and of which blob's file.
    pub fn request(&self, vault: &Vault) -> (r: (usize, Request))
        requires
            self.range.valid(vault@),
        ensures
            r.0 == self@.range.at,
            r.1@ == self@.range.asks(),
    {
        self.range.request(vault)
    }

    /// Takes the reply to what was asked.
    pub fn reply(self, vault: &Vault, reply: Reply) -> (r: Step<ReadFile, Vec<u8>>)
        requires
            self.range.valid(vault@),
            answers(self@.range.asks(), reply),
        ensures
            r@ == vault@.file_step(self@.file_id, self@.range.on_reply(vault@, reply)),
            r is Ask ==> r->Ask_0.range.valid(vault@),
    {
        let step = self.range.reply(vault, reply);
        vault.wrap_file_step(self.file_id, step)
    }
}

/// What was read at a cursor, and the cursor behind it.
#[derive(Debug)]
pub struct CursorRead {
    pub cursor: VaultFileCursor,
    pub bytes: Vec<u8>,
}

/// What a [`CursorRead`] holds.
#[verifier::ext_equal]
pub struct CursorReadView {
    pub cursor: CursorView,
    pub bytes: Seq<u8>,
}

impl View for CursorRead {
    type V = CursorReadView;

    open spec fn view(&self) -> CursorReadView {
        CursorReadView { cursor: self.cursor@, bytes: self.bytes@ }
    }
}

/// Reads at a cursor and moves it on.
pub struct ReadFromFile {
    pub cursor: VaultFileCursor,
    pub range: ReadRange,
}

/// What a [`ReadFromFile`] is about.
#[verifier::ext_equal]
pub struct ReadFromView {
    pub cursor: CursorView,
    pub range: RangeView,
}

impl View for ReadFromFile {
    type V = ReadFromView;

    open spec fn view(&self) -> ReadFromView {
        ReadFromView { cursor: self.cursor@, range: self.range@ }
    }
}

/// What comes of a step of reading at a cursor: the cursor moves by what was read.
pub open spec fn cursor_step(cursor: CursorView, step: StepView<RangeView, Seq<u8>>) -> StepView<
    ReadFromView,
    CursorReadView,
> {
    match step {
        StepView::Ask(range) => StepView::Ask(ReadFromView { cursor, range }),
        StepView::Done(Err(error)) => StepView::Done(Err(error)),
        StepView::Done(Ok(bytes)) => if cursor.position + bytes.len() > u64::MAX {
            StepView::Done(Err(VaultError::IntegerOverflow))
        } else {
            StepView::Done(
                Ok(
                    CursorReadView {
                        cursor: CursorView {
                            file_id: cursor.file_id,
                            position: (cursor.position + bytes.len()) as u64,
                        },
                        bytes,
                    },
                ),
            )
        },
    }
}

fn wrap_cursor_step(cursor: VaultFileCursor, step: Step<ReadRange, Vec<u8>>) -> (r: Step<
    ReadFromFile,
    CursorRead,
>)
    ensures
        r@ == cursor_step(cursor@, step@),
        r is Ask ==> step is Ask && r->Ask_0.range == step->Ask_0,
{
    match step {
        Step::Ask(range) => Step::Ask(ReadFromFile { cursor, range }),
        Step::Done(Err(error)) => Step::Done(Err(error)),
        Step::Done(Ok(bytes)) => match checked_add(cursor.position(), bytes.len() as u64) {
            Ok(position) => {
                let mut cursor = cursor;
                cursor.seek(position);
                Step::Done(Ok(CursorRead { cursor, bytes }))
            },
            Err(error) => Step::Done(Err(error)),
        },
    }
}

impl Vault {
    /// Starts reading at a cursor.
    pub fn read_from_file(&self, cursor: &VaultFileCursor, length: u64) -> (r: Step<
        ReadFromFile,
        CursorRead,
    >)
        ensures
            r@ == cursor_step(
                cursor@,
                self@.range_start(cursor@.file_id, cursor@.position, length),
            ),
            r is Ask ==> r->Ask_0.range.valid(self@),
    {
        let step = self.read_file_range(cursor.file_id(), cursor.position(), length);
        wrap_cursor_step(*cursor, step)
    }
}

impl ReadFromFile {
    /// What to ask, and of which blob's file.
    pub fn request(&self, vault: &Vault) -> (r: (usize, Request))
        requires
            self.range.valid(vault@),
        ensures
            r.0 == self@.range.at,
            r.1@ == self@.range.asks(),
    {
        self.range.request(vault)
    }

    /// Takes the reply to what was asked.
    pub fn reply(self, vault: &Vault, reply: Reply) -> (r: Step<ReadFromFile, CursorRead>)
        requires
            self.range.valid(vault@),
            answers(self@.range.asks(), reply),
        ensures
            r@ == cursor_step(self@.cursor, self@.range.on_reply(vault@, reply)),
            r is Ask ==> r->Ask_0.range.valid(vault@),
    {
        let step = self.range.reply(vault, reply);
        wrap_cursor_step(self.cursor, step)
    }
}

} // verus!
