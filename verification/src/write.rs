//! Appending chunks to a blob, as an operation that locks, reads what is committed, plans, and then
//! carries its plan out.

use vstd::prelude::*;

use crate::blob::{
    chunk_ends_fit, data_tail, data_tail_of, Blob, BlobView, Locator, LocatorView, FRONT_MATTER_LEN,
    VOLATILE_A_OFFSET, VOLATILE_SLOTS_LEN,
};
use crate::bytes::copy_bytes;
use crate::commit::{
    added_entries, commit_script, entries_at, frames_len, placement, plan_fits, prepare_refusal,
    prepared_entries, prepared_frames, run_writes, CommitPlan, Placement, PreparedChunk, Sealed,
    WritePlan,
};
use crate::consistency::{
    entries_sized, index_bytes, law_transaction_appends, law_transaction_commits, slots_in,
};
use crate::error::VaultError;
use crate::index::{
    new_chunk_views, new_complete_views, transaction_bytes, BlobIndex, IndexView, NewChunk,
    NewChunkView, NewFileComplete,
};
use crate::read::{index_request, slots_request};
use crate::storage::{
    after, after_all, answers, honest, memory_size, request_views, Reply, Request, RequestView,
    Step,
};
use crate::types::{chunk_views, ChunkEntry, CompleteView, FileCompleteEntry};

verus! {

/// Result of a successful chunk append transaction.
#[derive(Clone, Debug)]
pub struct WriteChunksResult {
    pub entries: Vec<ChunkEntry>,
    pub index: BlobIndex,
}

/// Requests that are carried out one after the other, and what they come to.
pub struct Play<T> {
    pub requests: Vec<Request>,
    pub next: usize,
    pub result: T,
}

/// A copy of a request.
pub fn copy_request(request: &Request) -> (r: Request)
    ensures
        r@ == request@,
{
    match request {
        Request::Lock => Request::Lock,
        Request::Truncate => Request::Truncate,
        Request::Length => Request::Length,
        Request::Read { offset, length } => Request::Read { offset: *offset, length: *length },
        Request::Write { offset, bytes } => Request::Write {
            offset: *offset,
            bytes: copy_bytes(bytes),
        },
        Request::Sync => Request::Sync,
    }
}

/// Appends chunks and completion markers in one transaction.
pub struct WriteChunks {
    pub chunks: Vec<NewChunk>,
    pub completed_files: Vec<NewFileComplete>,
    pub stage: WriteStage,
}

/// How far a [`WriteChunks`] is.
pub enum WriteStage {
    Lock,
    Slots,
    Index(Locator),
    Length(Prepared),
    Play(Play<WriteChunksResult>),
}

/// A transaction that is sealed, and what it was sealed for.
pub struct Prepared {
    pub locator: Locator,
    pub index: BlobIndex,
    pub ciphertext: Vec<u8>,
    pub data_tail: u64,
    pub plan: WritePlan,
}

impl WriteChunks {
    /// The chunks to be written.
    pub open spec fn new_chunks(self) -> Seq<NewChunkView> {
        new_chunk_views(self.chunks@)
    }

    /// The completion markers to be written.
    pub open spec fn new_completes(self) -> Seq<CompleteView> {
        new_complete_views(self.completed_files@)
    }

    /// The same transaction at another stage.
    pub open spec fn continues(self, other: WriteChunks) -> bool {
        self.chunks == other.chunks && self.completed_files == other.completed_files
    }

    /// The stage holds what its name says.
    pub open spec fn valid(self, b: BlobView) -> bool {
        match self.stage {
            WriteStage::Lock => true,
            WriteStage::Slots => true,
            WriteStage::Index(locator) => locator.index_length <= usize::MAX && locator.slot_index
                <= 1,
            WriteStage::Length(prepared) => self.prepared(b, prepared),
            WriteStage::Play(play) => {
                &&& play.next < play.requests@.len()
                &&& forall|i: int|
                    0 <= i < play.requests@.len() ==> (#[trigger] play.requests@[i]@ is Write)
                        || play.requests@[i]@ is Sync
            },
        }
    }

    /// The transaction is sealed for its place behind the data tail.
    pub open spec fn prepared(self, b: BlobView, prepared: Prepared) -> bool {
        let tail = prepared.data_tail as int;
        &&& prepared.locator.slot_index <= 1
        &&& prepared.ciphertext@.len() == prepared.locator.index_length
        &&& chunk_ends_fit(prepared.index@.chunks)
        &&& tail == data_tail_of(prepared.index@.chunks)
        &&& prepare_refusal(self.new_chunks(), tail) is None
        &&& plan_fits(prepared.plan, tail)
        &&& prepared.plan.total_chunk_len == frames_len(self.new_chunks())
        &&& prepared_entries(prepared.plan.chunks@) == entries_at(self.new_chunks(), tail)
        &&& b.frames_hold(self.new_chunks(), tail, prepared_frames(prepared.plan.chunks@))
        &&& prepared.plan.index_entries@ == transaction_bytes(
            added_entries(self.new_chunks(), self.new_completes(), tail),
        )
    }

    /// What is asked for.
    pub open spec fn asks(self) -> RequestView {
        match self.stage {
            WriteStage::Lock => RequestView::Lock,
            WriteStage::Slots => slots_request(),
            WriteStage::Index(locator) => index_request(locator@),
            WriteStage::Length(_) => RequestView::Length,
            WriteStage::Play(play) => play.requests@[play.next as int]@,
        }
    }

    /// What may come of the index that is in force: the reasons to refuse, or the transaction
    /// sealed for this file.
    pub open spec fn on_index(
        self,
        b: BlobView,
        locator: LocatorView,
        ciphertext: Seq<u8>,
        r: Step<WriteChunks, WriteChunksResult>,
    ) -> bool {
        match b.index_of(locator, ciphertext) {
            Err(error) => r == Step::<WriteChunks, WriteChunksResult>::Done(Err(error)),
            Ok((index, _)) => if !chunk_ends_fit(index.chunks) {
                r == Step::<WriteChunks, WriteChunksResult>::Done(Err(VaultError::IntegerOverflow))
            } else if let Some(error) = prepare_refusal(
                self.new_chunks(),
                data_tail_of(index.chunks),
            ) {
                r == Step::<WriteChunks, WriteChunksResult>::Done(Err(error))
            } else {
                &&& r matches Step::Ask(next)
                &&& next.continues(self)
                &&& next.stage matches WriteStage::Length(prepared)
                &&& prepared.locator@ == locator
                &&& prepared.index@ == index
                &&& prepared.ciphertext@ == ciphertext
            },
        }
    }

    /// What may come of the length of the file: the reasons to refuse, or the plan.
    pub open spec fn on_length(
        self,
        b: BlobView,
        prepared: Prepared,
        eof: u64,
        r: Step<WriteChunks, WriteChunksResult>,
    ) -> bool {
        let tail = prepared.data_tail as int;
        let added = added_entries(self.new_chunks(), self.new_completes(), tail);
        match placement(
            b.config,
            prepared.locator@,
            tail,
            frames_len(self.new_chunks()),
            transaction_bytes(added).len() as int,
            eof as int,
        ) {
            Err(error) => r == Step::<WriteChunks, WriteChunksResult>::Done(Err(error)),
            Ok(place) => {
                &&& r matches Step::Ask(next)
                &&& next.continues(self)
                &&& next.stage matches WriteStage::Play(play)
                &&& play.next == 0
                &&& chunk_views(play.result.entries@) == added.chunks
                &&& play.result.index@ == prepared.index@.concat(added)
                &&& exists|plan: CommitPlan| #[trigger]
                    b.planned(
                        place,
                        prepared.locator@,
                        transaction_bytes(added),
                        tail,
                        eof as int,
                        prepared_frames(prepared.plan.chunks@),
                        prepared.ciphertext@,
                        plan,
                    ) && plan.requests == play.requests
            },
        }
    }

    /// What may come of a reply.
    pub open spec fn on_reply(
        self,
        b: BlobView,
        reply: Reply,
        r: Step<WriteChunks, WriteChunksResult>,
    ) -> bool {
        match (self.stage, reply) {
            (_, Reply::Failed(error)) => r == Step::<WriteChunks, WriteChunksResult>::Done(
                Err(VaultError::Io(error)),
            ),
            (WriteStage::Lock, Reply::Done) => {
                &&& r matches Step::Ask(next)
                &&& next.continues(self)
                &&& next.stage is Slots
            },
            (WriteStage::Slots, Reply::Bytes(slots)) => if b.locators(slots@).len() == 0 {
                r == Step::<WriteChunks, WriteChunksResult>::Done(Err(VaultError::NoValidLocator))
            } else {
                let locator = b.locators(slots@)[0];
                if locator.index_length == 0 {
                    self.on_index(b, locator, Seq::empty(), r)
                } else if locator.index_length > usize::MAX {
                    r == Step::<WriteChunks, WriteChunksResult>::Done(
                        Err(VaultError::IntegerOverflow),
                    )
                } else {
                    &&& r matches Step::Ask(next)
                    &&& next.continues(self)
                    &&& next.stage matches WriteStage::Index(found)
                    &&& found@ == locator
                }
            },
            (WriteStage::Index(locator), Reply::Bytes(bytes)) => self.on_index(
                b,
                locator@,
                bytes@,
                r,
            ),
            (WriteStage::Length(prepared), Reply::Length(eof)) => self.on_length(
                b,
                prepared,
                eof,
                r,
            ),
            (WriteStage::Play(play), Reply::Done) => if play.next + 1 < play.requests@.len() {
                &&& r matches Step::Ask(next)
                &&& next.continues(self)
                &&& next.stage matches WriteStage::Play(later)
                &&& later.requests == play.requests
                &&& later.next == play.next + 1
                &&& later.result == play.result
            } else {
                r == Step::<WriteChunks, WriteChunksResult>::Done(Ok(play.result))
            },
            _ => true,
        }
    }
}

impl WriteChunks {
    /// What to ask.
    pub fn request(&self, blob: &Blob) -> (r: Request)
        requires
            self.valid(blob@),
        ensures
            r@ == self.asks(),
    {
        match &self.stage {
            WriteStage::Lock => Request::Lock,
            WriteStage::Slots => Request::Read {
                offset: VOLATILE_A_OFFSET,
                length: VOLATILE_SLOTS_LEN,
            },
            WriteStage::Index(locator) => Request::Read {
                offset: locator.index_offset,
                length: locator.index_length as usize,
            },
            WriteStage::Length(_) => Request::Length,
            WriteStage::Play(play) => copy_request(&play.requests[play.next]),
        }
    }

    /// Takes the reply to what was asked.
    pub fn reply(self, blob: &Blob, reply: Reply) -> (r: Step<WriteChunks, WriteChunksResult>)
        requires
            self.valid(blob@),
            answers(self.asks(), reply),
        ensures
            self.on_reply(blob@, reply, r),
            r is Ask ==> r->Ask_0.valid(blob@),
    {
        let WriteChunks { chunks, completed_files, stage } = self;
        match (stage, reply) {
            (_, Reply::Failed(error)) => Step::Done(Err(VaultError::Io(error))),
            (WriteStage::Lock, Reply::Done) => Step::Ask(
                WriteChunks { chunks, completed_files, stage: WriteStage::Slots },
            ),
            (WriteStage::Slots, Reply::Bytes(slots)) => {
                let locators = match blob.read_sorted_locators(&slots) {
                    Ok(locators) => locators,
                    Err(error) => return Step::Done(Err(error)),
                };
                let locator = locators[0];
                assert(locator@ == blob@.locators(slots@)[0]);
                if locator.index_length == 0 {
                    let nothing: Vec<u8> = Vec::new();
                    assert(nothing@ =~= Seq::empty());
                    return seal(blob, chunks, completed_files, locator, nothing);
                }
                match memory_size(locator.index_length) {
                    Ok(_) => Step::Ask(
                        WriteChunks { chunks, completed_files, stage: WriteStage::Index(locator) },
                    ),
                    Err(error) => Step::Done(Err(error)),
                }
            },
            (WriteStage::Index(locator), Reply::Bytes(bytes)) => seal(
                blob,
                chunks,
                completed_files,
                locator,
                bytes,
            ),
            (WriteStage::Length(prepared), Reply::Length(eof)) => plan(
                blob,
                chunks,
                completed_files,
                prepared,
                eof,
            ),
            (WriteStage::Play(play), Reply::Done) => {
                let Play { requests, next, result } = play;
                let total: usize = requests.len();
                if next + 1 < total {
                    Step::Ask(
                        WriteChunks {
                            chunks,
                            completed_files,
                            stage: WriteStage::Play(Play { requests, next: next + 1, result }),
                        },
                    )
                } else {
                    Step::Done(Ok(result))
                }
            },
            _ => {
                assert(false);
                Step::Done(Err(VaultError::IndexChainBroken))
            },
        }
    }
}

/// Checks the index that is in force and seals the transaction for its place.
fn seal(
    blob: &Blob,
    chunks: Vec<NewChunk>,
    completed_files: Vec<NewFileComplete>,
    locator: Locator,
    ciphertext: Vec<u8>,
) -> (r: Step<WriteChunks, WriteChunksResult>)
    requires
        locator.slot_index <= 1,
        ciphertext@.len() == locator.index_length,
    ensures
        (WriteChunks { chunks, completed_files, stage: WriteStage::Slots }).on_index(
            blob@,
            locator@,
            ciphertext@,
            r,
        ),
        r is Ask ==> r->Ask_0.valid(blob@),
{
    let kept = copy_bytes(&ciphertext);
    let index = match blob.read_index_with_locator(&locator, ciphertext) {
        Ok((index, _)) => index,
        Err(error) => return Step::Done(Err(error)),
    };
    let tail = match data_tail(&index) {
        Ok(tail) => tail,
        Err(error) => return Step::Done(Err(error)),
    };
    let plan = match blob.prepare_write(&chunks, &completed_files, tail) {
        Ok(plan) => plan,
        Err(error) => return Step::Done(Err(error)),
    };
    proof {
        lemma_plan_fits(blob@, new_chunk_views(chunks@), tail as int, plan);
    }
    Step::Ask(
        WriteChunks {
            chunks,
            completed_files,
            stage: WriteStage::Length(
                Prepared { locator, index, ciphertext: kept, data_tail: tail, plan },
            ),
        },
    )
}

proof fn lemma_plan_fits(b: BlobView, chunks: Seq<NewChunkView>, tail: int, plan: WritePlan)
    requires
        prepare_refusal(chunks, tail) is None,
        0 <= tail <= u64::MAX,
        b.frames_hold(chunks, tail, prepared_frames(plan.chunks@)),
        plan.total_chunk_len == frames_len(chunks),
    ensures
        plan_fits(plan, tail),
{
    let frames = prepared_frames(plan.chunks@);
    assert forall|j: int| 0 <= j < chunks.len() implies (#[trigger] frames[j]).len()
        == chunks[j].plaintext.len() + 40 by {
        assert(b.frame_holds(entries_at(chunks, tail)[j], chunks[j].plaintext, frames[j]));
    }
    crate::consistency::lemma_prefix_lengths(chunks, frames, chunks.len() as int);
    assert(chunks.take(chunks.len() as int) =~= chunks);
    assert(frames.take(chunks.len() as int) =~= frames);
    if chunks.len() == 0 {
        assert(frames_len(chunks) == 0);
    }
}

/// Places a sealed transaction in a file of the given length.
fn plan(
    blob: &Blob,
    chunks: Vec<NewChunk>,
    completed_files: Vec<NewFileComplete>,
    prepared: Prepared,
    eof: u64,
) -> (r: Step<WriteChunks, WriteChunksResult>)
    requires
        (WriteChunks { chunks, completed_files, stage: WriteStage::Slots }).prepared(
            blob@,
            prepared,
        ),
    ensures
        (WriteChunks { chunks, completed_files, stage: WriteStage::Slots }).on_length(
            blob@,
            prepared,
            eof,
            r,
        ),
        r is Ask ==> r->Ask_0.valid(blob@),
{
    let ghost before = prepared;
    let commit = match blob.plan_commit(
        &prepared.locator,
        &prepared.ciphertext,
        &prepared.plan,
        prepared.data_tail,
        eof,
    ) {
        Ok(commit) => commit,
        Err(error) => return Step::Done(Err(error)),
    };
    let entries = copy_entries(&prepared.plan.chunks);
    let mut index = prepared.index;
    let ghost old_index = index@;
    append_entries(&mut index, &entries, &completed_files);
    let ghost tail = before.data_tail as int;
    let ghost added = added_entries(
        new_chunk_views(chunks@),
        new_complete_views(completed_files@),
        tail,
    );
    proof {
        assert(index@ =~= old_index.concat(added));
        lemma_script_writes(blob@, before, commit, eof as int, transaction_bytes(added));
    }
    Step::Ask(
        WriteChunks {
            chunks,
            completed_files,
            stage: WriteStage::Play(
                Play {
                    requests: commit.requests,
                    next: 0,
                    result: WriteChunksResult { entries, index },
                },
            ),
        },
    )
}

/// The entries of the prepared chunks.
fn copy_entries(chunks: &Vec<PreparedChunk>) -> (r: Vec<ChunkEntry>)
    ensures
        chunk_views(r@) == prepared_entries(chunks@),
{
    let mut entries: Vec<ChunkEntry> = Vec::with_capacity(chunks.len());
    let mut i: usize = 0;
    while i < chunks.len()
        invariant
            i <= chunks@.len(),
            entries@.len() == i,
            forall|j: int| 0 <= j < i ==> (#[trigger] entries@[j])@ == chunks@[j].entry@,
        decreases chunks@.len() - i,
    {
        entries.push(chunks[i].entry);
        i += 1;
    }
    assert(chunk_views(entries@) =~= prepared_entries(chunks@));
    entries
}

/// Appends entries to an index.
fn append_entries(
    index: &mut BlobIndex,
    chunks: &Vec<ChunkEntry>,
    completed_files: &Vec<NewFileComplete>,
)
    ensures
        final(index)@ == old(index)@.concat(
            IndexView {
                chunks: chunk_views(chunks@),
                completed_files: new_complete_views(completed_files@),
            },
        ),
{
    let ghost before = index@;
    let ghost new_chunks = chunk_views(chunks@);
    let ghost new_completes = new_complete_views(completed_files@);
    let mut i: usize = 0;
    assert(index@.chunks =~= before.chunks + new_chunks.take(0));
    while i < chunks.len()
        invariant
            i <= chunks@.len(),
            new_chunks == chunk_views(chunks@),
            index@.chunks == before.chunks + new_chunks.take(i as int),
            index@.completed_files == before.completed_files,
        decreases chunks@.len() - i,
    {
        let ghost old_index = index@;
        index.chunks.push(chunks[i]);
        i += 1;
        assert(index@.chunks =~= old_index.chunks.push(new_chunks[i - 1]));
        assert(index@.chunks =~= before.chunks + new_chunks.take(i as int));
        assert(index@.completed_files =~= before.completed_files);
    }
    let mut k: usize = 0;
    assert(new_chunks.take(i as int) =~= new_chunks);
    assert(index@.completed_files =~= before.completed_files + new_completes.take(0));
    while k < completed_files.len()
        invariant
            k <= completed_files@.len(),
            new_completes == new_complete_views(completed_files@),
            index@.chunks == before.chunks + new_chunks,
            index@.completed_files == before.completed_files + new_completes.take(k as int),
        decreases completed_files@.len() - k,
    {
        let ghost old_index = index@;
        let marker = completed_files[k];
        index.completed_files.push(
            FileCompleteEntry {
                file_id: marker.file_id,
                total_chunks: marker.total_chunks,
                full_content_hash: marker.full_content_hash,
            },
        );
        k += 1;
        assert(index@.completed_files =~= old_index.completed_files.push(new_completes[k - 1]));
        assert(index@.completed_files =~= before.completed_files + new_completes.take(k as int));
        assert(index@.chunks =~= old_index.chunks);
    }
    assert(new_completes.take(k as int) =~= new_completes);
    assert(index@ =~= before.concat(
        IndexView { chunks: new_chunks, completed_files: new_completes },
    ));
}

/// Writing pieces one behind the other is nothing but writing.
pub proof fn lemma_run_is_writes(offset: int, pieces: Seq<Seq<u8>>)
    ensures
        forall|i: int|
            0 <= i < run_writes(offset, pieces).len() ==> (#[trigger] run_writes(
                offset,
                pieces,
            )[i]) is Write,
    decreases pieces.len(),
{
    if pieces.len() > 0 {
        lemma_run_is_writes(offset, pieces.drop_last());
        let front = run_writes(offset, pieces.drop_last());
        let all = run_writes(offset, pieces);
        assert forall|i: int| 0 <= i < all.len() implies (#[trigger] all[i]) is Write by {
            if i < front.len() {
                assert(all[i] == front[i]);
            }
        }
    }
}

/// A plan consists of writes and syncs, and of more than one.
proof fn lemma_script_writes(
    b: BlobView,
    prepared: Prepared,
    plan: CommitPlan,
    eof: int,
    added: Seq<u8>,
)
    requires
        exists|place: Placement| #[trigger]
            b.planned(
                place,
                prepared.locator@,
                added,
                prepared.data_tail as int,
                eof,
                prepared_frames(prepared.plan.chunks@),
                prepared.ciphertext@,
                plan,
            ),
    ensures
        plan.requests@.len() >= 2,
        forall|i: int|
            0 <= i < plan.requests@.len() ==> (#[trigger] plan.requests@[i]@ is Write)
                || plan.requests@[i]@ is Sync,
{
    let tail = prepared.data_tail as int;
    let frames = prepared_frames(prepared.plan.chunks@);
    let place = choose|place: Placement| #[trigger]
        b.planned(
            place,
            prepared.locator@,
            added,
            tail,
            eof,
            frames,
            prepared.ciphertext@,
            plan,
        );
    let sealed = choose|sealed: Sealed|
        sealed.frames == frames && sealed.ciphertext == prepared.ciphertext@ && #[trigger] b.commits(
            place,
            prepared.locator@,
            added,
            tail,
            eof,
            sealed,
            plan,
        );
    let script = commit_script(place, prepared.locator@, tail, eof, sealed);
    lemma_run_is_writes(tail, sealed.frames);
    lemma_run_is_writes(eof, sealed.fill);
    let run = run_writes(tail, sealed.frames);
    let fill = run_writes(eof, sealed.fill);
    assert forall|i: int| 0 <= i < script.len() implies (#[trigger] script[i] is Write)
        || script[i] is Sync by {
        if place.relocate {
            if i < fill.len() {
                assert(script[i] == fill[i]);
            } else if i >= fill.len() + 4 && i < fill.len() + 4 + run.len() {
                assert(script[i] == run[i - fill.len() - 4]);
            }
        } else if i < run.len() {
            assert(script[i] == run[i]);
        }
    }
    assert forall|i: int| 0 <= i < plan.requests@.len() implies (#[trigger] plan.requests@[i]@ is Write)
        || plan.requests@[i]@ is Sync by {
        assert(request_views(plan.requests@)[i] == script[i]);
    }
}

impl Blob {
    /// Starts appending chunks and completion markers in one transaction.
    pub fn write_chunks(
        &self,
        chunks: Vec<NewChunk>,
        completed_files: Vec<NewFileComplete>,
    ) -> (r: WriteChunks)
        ensures
            r == (WriteChunks { chunks, completed_files, stage: WriteStage::Lock }),
            r.valid(self@),
    {
        WriteChunks { chunks, completed_files, stage: WriteStage::Lock }
    }
}

impl WriteChunks {
    /// The requests that are being played are those of a transaction on `base`, and the result is
    /// what that transaction comes to.
    pub open spec fn plays(
        self,
        b: BlobView,
        base: Seq<u8>,
        play: Play<WriteChunksResult>,
        place: Placement,
        sealed: Sealed,
    ) -> bool {
        let tail = data_tail_of(b.entries(base).chunks);
        let added = added_entries(self.new_chunks(), self.new_completes(), tail);
        &&& b.indexed(base)
        &&& b.transaction(base, self.new_chunks(), self.new_completes(), place, sealed)
        &&& request_views(play.requests@) == b.script(base, place, sealed)
        &&& chunk_views(play.result.entries@) == added.chunks
        &&& play.result.index@ == b.entries(base).concat(added)
    }

    /// What the operation holds is true of the file: it was `base` when the operation started, and
    /// is `image` now.
    pub open spec fn tracks(self, b: BlobView, base: Seq<u8>, image: Seq<u8>) -> bool {
        match self.stage {
            WriteStage::Lock => image == base,
            WriteStage::Slots => image == base,
            WriteStage::Index(locator) => {
                &&& image == base
                &&& FRONT_MATTER_LEN <= base.len()
                &&& b.locators(slots_in(base)).len() > 0
                &&& locator@ == b.active(base)
            },
            WriteStage::Length(prepared) => {
                let locator = b.active(base);
                &&& image == base
                &&& FRONT_MATTER_LEN <= base.len()
                &&& b.locators(slots_in(base)).len() > 0
                &&& prepared.locator@ == locator
                &&& locator.index_offset + locator.index_length <= base.len() ==> {
                    &&& b.stored(base) is Ok
                    &&& prepared.index@ == b.entries(base)
                    &&& prepared.ciphertext@ == index_bytes(locator, base)
                }
            },
            WriteStage::Play(play) => exists|place: Placement, sealed: Sealed|
                #[trigger] self.plays(b, base, play, place, sealed) && image == after_all(
                    base,
                    request_views(play.requests@).take(play.next as int),
                ),
        }
    }
}

/// A write that is carried out by a file that answers as it should keeps track of the file, and
/// what it reports is what the file then holds.
///
/// Every step leads on, refuses before anything was written, or is the last one. After the last one
/// the index that was there is found to be authentic, the reported index is that one with the new
/// entries behind it and is the one that is in force, and each reported entry reads as the chunk
/// that was to be written. Where the file was consistent it is consistent, and every chunk that was
/// there reads as it did.
pub proof fn law_write_is_what_it_reports(
    b: BlobView,
    base: Seq<u8>,
    image: Seq<u8>,
    operation: WriteChunks,
    reply: Reply,
    step: Step<WriteChunks, WriteChunksResult>,
)
    requires
        b.index_clear(base),
        operation.valid(b),
        operation.tracks(b, base, image),
        honest(image, operation.asks(), reply),
        operation.on_reply(b, reply, step),
    ensures
        ({
            let now = after(image, operation.asks());
            match step {
                Step::Ask(next) => next.tracks(b, base, now) && next.continues(operation),
                Step::Done(Err(_)) => now == base,
                Step::Done(Ok(result)) => {
                    let old = b.entries(base);
                    let tail = data_tail_of(old.chunks);
                    let chunks = operation.new_chunks();
                    &&& b.indexed(base)
                    &&& b.indexed(now)
                    &&& result.index@ == b.entries(now)
                    &&& b.entries(now) == old.concat(
                        added_entries(chunks, operation.new_completes(), tail),
                    )
                    &&& chunk_views(result.entries@) == entries_at(chunks, tail)
                    &&& forall|i: int|
                        0 <= i < chunks.len() ==> b.stored_chunk(
                            (#[trigger] result.entries@[i])@,
                            now,
                        ) == Ok::<Seq<u8>, VaultError>(chunks[i].plaintext)
                    &&& exists|place: Placement, sealed: Sealed| #[trigger]
                        b.wrote(base, chunks, operation.new_completes(), place, sealed, now)
                    &&& b.consistent(base) ==> {
                        &&& b.consistent(now)
                        &&& forall|i: int|
                            0 <= i < old.chunks.len() ==> b.stored_chunk(
                                #[trigger] old.chunks[i],
                                now,
                            ) == b.stored_chunk(old.chunks[i], base)
                    }
                },
            }
        }),
{
    match operation.stage {
        WriteStage::Lock => {},
        WriteStage::Slots => {
            if reply is Bytes {
                assert(reply->Bytes_0@ =~= slots_in(base));
                let locator = b.active(base);
                if locator.index_length == 0 && locator.index_offset <= base.len() {
                    assert(index_bytes(locator, base) =~= Seq::empty());
                }
            }
        },
        WriteStage::Index(locator) => {
            if reply is Bytes {
                assert(reply->Bytes_0@ =~= index_bytes(b.active(base), base));
            }
        },
        WriteStage::Length(prepared) => {
            lemma_length_reply_plays(b, base, operation, prepared, reply, step);
        },
        WriteStage::Play(play) => {
            let (place, sealed) = choose|place: Placement, sealed: Sealed|
                #[trigger] operation.plays(b, base, play, place, sealed) && image == after_all(
                    base,
                    request_views(play.requests@).take(play.next as int),
                );
            let script = request_views(play.requests@);
            let k = play.next as int;
            assert(script.take(k + 1).drop_last() =~= script.take(k));
            assert(script.take(k + 1).last() == operation.asks());
            assert(play.requests@[k]@ is Write || play.requests@[k]@ is Sync);
            assert(after(image, operation.asks()) == after_all(base, script.take(k + 1)));
            if play.next + 1 < play.requests@.len() {
                let next = step->Ask_0;
                let later = next.stage->Play_0;
                assert(next.plays(b, base, later, place, sealed));
            } else {
                assert(script.take(k + 1) =~= script);
                lemma_sized_result(operation, b, base, play);
                law_transaction_appends(
                    b,
                    base,
                    operation.new_chunks(),
                    operation.new_completes(),
                    place,
                    sealed,
                );
                if b.consistent(base) {
                    law_transaction_commits(
                        b,
                        base,
                        operation.new_chunks(),
                        operation.new_completes(),
                        place,
                        sealed,
                    );
                }
                let tail = data_tail_of(b.entries(base).chunks);
                let entries = entries_at(operation.new_chunks(), tail);
                let now = after(image, operation.asks());
                assert(b.wrote(
                    base,
                    operation.new_chunks(),
                    operation.new_completes(),
                    place,
                    sealed,
                    now,
                ));
                assert forall|i: int| 0 <= i < operation.new_chunks().len() implies b.stored_chunk(
                    (#[trigger] play.result.entries@[i])@,
                    now,
                ) == Ok::<Seq<u8>, VaultError>(operation.new_chunks()[i].plaintext) by {
                    assert(chunk_views(play.result.entries@)[i] == entries[i]);
                }
            }
        },
    }
}

proof fn lemma_sized_result(
    operation: WriteChunks,
    b: BlobView,
    base: Seq<u8>,
    play: Play<WriteChunksResult>,
)
    requires
        ({
            let tail = data_tail_of(b.entries(base).chunks);
            chunk_views(play.result.entries@) == entries_at(operation.new_chunks(), tail)
        }),
    ensures
        entries_sized(
            added_entries(
                operation.new_chunks(),
                operation.new_completes(),
                data_tail_of(b.entries(base).chunks),
            ),
        ),
{
    let tail = data_tail_of(b.entries(base).chunks);
    let added = added_entries(operation.new_chunks(), operation.new_completes(), tail);
    assert forall|i: int| 0 <= i < added.chunks.len() implies (#[trigger] added.chunks[i]).sized() by {
        assert(added.chunks[i] == chunk_views(play.result.entries@)[i]);
        assert(added.chunks[i] == play.result.entries@[i]@);
    }
    assert forall|i: int| 0 <= i < added.completed_files.len() implies (
    #[trigger] added.completed_files[i]).sized() by {
        assert(added.completed_files[i] == operation.completed_files@[i]@);
    }
}

proof fn lemma_length_reply_plays(
    b: BlobView,
    base: Seq<u8>,
    operation: WriteChunks,
    prepared: Prepared,
    reply: Reply,
    step: Step<WriteChunks, WriteChunksResult>,
)
    requires
        b.index_clear(base),
        operation.valid(b),
        operation.stage == WriteStage::Length(prepared),
        operation.tracks(b, base, base),
        honest(base, RequestView::Length, reply),
        operation.on_reply(b, reply, step),
    ensures
        step is Ask ==> step->Ask_0.tracks(b, base, base) && step->Ask_0.continues(operation),
{
    if step is Ask {
        let next = step->Ask_0;
        let play = next.stage->Play_0;
        let tail = prepared.data_tail as int;
        let added = added_entries(operation.new_chunks(), operation.new_completes(), tail);
        let bytes = transaction_bytes(added);
        let eof = base.len() as int;
        let frames = prepared_frames(prepared.plan.chunks@);
        let place = placement(
            b.config,
            prepared.locator@,
            tail,
            frames_len(operation.new_chunks()),
            bytes.len() as int,
            eof,
        )->Ok_0;
        let plan = choose|plan: CommitPlan| #[trigger]
            b.planned(
                place,
                prepared.locator@,
                bytes,
                tail,
                eof,
                frames,
                prepared.ciphertext@,
                plan,
            ) && plan.requests == play.requests;
        let sealed = choose|sealed: Sealed|
            sealed.frames == frames && sealed.ciphertext == prepared.ciphertext@
                && #[trigger] b.commits(
                place,
                prepared.locator@,
                bytes,
                tail,
                eof,
                sealed,
                plan,
            );
        assert(b.transaction(
            base,
            operation.new_chunks(),
            operation.new_completes(),
            place,
            sealed,
        ));
        assert(request_views(play.requests@) == b.script(base, place, sealed));
        assert(next.plays(b, base, play, place, sealed));
        assert(request_views(play.requests@).take(0) =~= Seq::<RequestView>::empty());
        assert(after_all(base, Seq::<RequestView>::empty()) == base);
    }
}

} // verus!
