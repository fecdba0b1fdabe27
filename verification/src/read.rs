//! Reading from a blob, as operations that ask for bytes and decide what they mean.

use vstd::prelude::*;

use crate::blob::{
    locator_views, Blob, BlobView, Locator, LocatorView, AEAD_FRAME_OVERHEAD, FRONT_MATTER_LEN,
    VOLATILE_A_OFFSET, VOLATILE_SLOTS_LEN,
};
use crate::bytes::checked_add;
use crate::consistency::{frame_in, index_bytes, slots_in};
use crate::error::VaultError;
use crate::index::{BlobIndex, IndexView};
use crate::stats::{layout_breakdown, stats_fit, stats_of, BlobLayoutStats};
use crate::storage::{answers, honest, memory_size, Reply, Request, RequestView, Step, StepView};
use crate::types::{chunk_views, ChunkEntry, ChunkView, FileId};

verus! {

/// The request for both volatile slots.
pub open spec fn slots_request() -> RequestView {
    RequestView::Read { offset: VOLATILE_A_OFFSET, length: VOLATILE_SLOTS_LEN }
}

/// The request for the index that a locator points at.
pub open spec fn index_request(locator: LocatorView) -> RequestView {
    RequestView::Read {
        offset: locator.index_offset,
        length: locator.index_length as usize,
    }
}

/// Reads the index, and tries again where a writer got in between.
pub struct ReadIndex {
    pub retries: usize,
    pub locator: Option<Locator>,
}

/// What a [`ReadIndex`] is about: the retries that are left, and the locator whose index is being
/// read; without one the slots are.
#[verifier::ext_equal]
pub struct ReadIndexView {
    pub retries: usize,
    pub locator: Option<LocatorView>,
}

impl View for ReadIndex {
    type V = ReadIndexView;

    open spec fn view(&self) -> ReadIndexView {
        ReadIndexView {
            retries: self.retries,
            locator: match self.locator {
                Some(locator) => Some(locator@),
                None => None,
            },
        }
    }
}

impl ReadIndexView {
    /// The index of the locator fits into memory.
    pub open spec fn valid(self) -> bool {
        self.locator is Some ==> self.locator->0.index_length <= usize::MAX
    }

    /// What is asked for.
    pub open spec fn asks(self) -> RequestView {
        match self.locator {
            None => slots_request(),
            Some(locator) => index_request(locator),
        }
    }

    /// What is decided on a locator's index. A MAC that does not fit is a race with a writer,
    /// which is worth another try while there are retries left.
    pub open spec fn on_index(
        self,
        b: BlobView,
        locator: LocatorView,
        ciphertext: Seq<u8>,
    ) -> StepView<ReadIndexView, IndexView> {
        match b.index_of(locator, ciphertext) {
            Ok((index, _)) => StepView::Done(Ok(index)),
            Err(VaultError::IndexMacMismatch) => if self.retries > 0 {
                StepView::Ask(
                    ReadIndexView { retries: (self.retries - 1) as usize, locator: None },
                )
            } else {
                StepView::Done(Err(VaultError::RetryBudgetExceeded))
            },
            Err(error) => StepView::Done(Err(error)),
        }
    }

    /// What is decided on the slots.
    pub open spec fn on_slots(self, b: BlobView, slots: Seq<u8>) -> StepView<
        ReadIndexView,
        IndexView,
    > {
        if b.locators(slots).len() == 0 {
            StepView::Done(Err(VaultError::NoValidLocator))
        } else {
            let locator = b.locators(slots)[0];
            if locator.index_length == 0 {
                self.on_index(b, locator, Seq::empty())
            } else if locator.index_length > usize::MAX {
                StepView::Done(Err(VaultError::IntegerOverflow))
            } else {
                StepView::Ask(ReadIndexView { retries: self.retries, locator: Some(locator) })
            }
        }
    }

    /// What is decided on a reply.
    pub open spec fn on_reply(self, b: BlobView, reply: Reply) -> StepView<
        ReadIndexView,
        IndexView,
    > {
        match reply {
            Reply::Failed(error) => StepView::Done(Err(VaultError::Io(error))),
            Reply::Bytes(bytes) => match self.locator {
                None => self.on_slots(b, bytes@),
                Some(locator) => self.on_index(b, locator, bytes@),
            },
            _ => arbitrary(),
        }
    }
}

impl ReadIndex {
    /// What to ask.
    pub fn request(&self) -> (r: Request)
        requires
            self@.valid(),
        ensures
            r@ == self@.asks(),
    {
        match &self.locator {
            None => Request::Read { offset: VOLATILE_A_OFFSET, length: VOLATILE_SLOTS_LEN },
            Some(locator) => Request::Read {
                offset: locator.index_offset,
                length: locator.index_length as usize,
            },
        }
    }

    /// Takes the reply to what was asked.
    pub fn reply(self, blob: &Blob, reply: Reply) -> (r: Step<ReadIndex, BlobIndex>)
        requires
            self@.valid(),
            answers(self@.asks(), reply),
        ensures
            r@ == self@.on_reply(blob@, reply),
            r is Ask ==> r->Ask_0@.valid(),
    {
        match reply {
            Reply::Failed(error) => Step::Done(Err(VaultError::Io(error))),
            Reply::Bytes(bytes) => match self.locator {
                None => self.decide_slots(blob, bytes),
                Some(locator) => self.decide_index(blob, locator, bytes),
            },
            _ => {
                assert(false);
                Step::Done(Err(VaultError::IndexChainBroken))
            },
        }
    }

    fn decide_slots(self, blob: &Blob, slots: Vec<u8>) -> (r: Step<ReadIndex, BlobIndex>)
        requires
            slots@.len() == VOLATILE_SLOTS_LEN,
        ensures
            r@ == self@.on_slots(blob@, slots@),
            r is Ask ==> r->Ask_0@.valid(),
    {
        let locators = match blob.read_sorted_locators(&slots) {
            Ok(locators) => locators,
            Err(error) => return Step::Done(Err(error)),
        };
        let locator = locators[0];
        assert(locator@ == blob@.locators(slots@)[0]);
        if locator.index_length == 0 {
            let nothing: Vec<u8> = Vec::new();
            assert(nothing@ =~= Seq::empty());
            return self.decide_index(blob, locator, nothing);
        }
        match memory_size(locator.index_length) {
            Ok(_) => Step::Ask(ReadIndex { retries: self.retries, locator: Some(locator) }),
            Err(error) => Step::Done(Err(error)),
        }
    }

    fn decide_index(self, blob: &Blob, locator: Locator, ciphertext: Vec<u8>) -> (r: Step<
        ReadIndex,
        BlobIndex,
    >)
        ensures
            r@ == self@.on_index(blob@, locator@, ciphertext@),
            r is Ask ==> r->Ask_0@.valid(),
    {
        match blob.read_index_with_locator(&locator, ciphertext) {
            Ok((index, _)) => Step::Done(Ok(index)),
            Err(VaultError::IndexMacMismatch) => {
                if self.retries > 0 {
                    Step::Ask(ReadIndex { retries: self.retries - 1, locator: None })
                } else {
                    Step::Done(Err(VaultError::RetryBudgetExceeded))
                }
            },
            Err(error) => Step::Done(Err(error)),
        }
    }
}

impl Blob {
    /// Starts reading the index.
    pub fn read_index(&self) -> (r: ReadIndex)
        ensures
            r@ == (ReadIndexView {
                retries: self@.config.reader_retry_budget,
                locator: None,
            }),
            r@.valid(),
    {
        ReadIndex { retries: self.config.reader_retry_budget, locator: None }
    }
}

/// On a file that holds an authentic index and answers as it should, reading the index takes one or
/// two requests and gives the entries that are in force, whatever retries are left.
pub proof fn law_index_is_read(
    b: BlobView,
    image: Seq<u8>,
    start: ReadIndexView,
    first: Reply,
    second: Reply,
)
    requires
        b.indexed(image),
        start.locator is None,
        honest(image, start.asks(), first),
        b.active(image).index_length <= usize::MAX,
        honest(image, index_request(b.active(image)), second),
    ensures
        match start.on_reply(b, first) {
            StepView::Done(result) => result == Ok::<IndexView, VaultError>(b.entries(image)),
            StepView::Ask(next) => {
                &&& next.asks() == index_request(b.active(image))
                &&& next.on_reply(b, second) == StepView::<ReadIndexView, IndexView>::Done(
                    Ok(b.entries(image)),
                )
            },
        },
{
    let slots = first->Bytes_0@;
    assert(slots =~= slots_in(image));
    let locator = b.active(image);
    if locator.index_length == 0 {
        assert(index_bytes(locator, image) =~= Seq::empty());
    } else {
        assert(second->Bytes_0@ =~= index_bytes(locator, image));
    }
}

/// Finds the newest index that is whole: where the locator in force does not lead to one, the
/// other is tried.
pub struct RefreshSnapshot {
    pub locators: Vec<Locator>,
}

/// What a [`RefreshSnapshot`] is about: the locators that are left to try, the first of which is
/// being read; without one the slots are.
#[verifier::ext_equal]
pub struct RefreshView {
    pub locators: Seq<LocatorView>,
}

impl View for RefreshSnapshot {
    type V = RefreshView;

    open spec fn view(&self) -> RefreshView {
        RefreshView { locators: locator_views(self.locators@) }
    }
}

/// What comes of trying the locators in turn.
pub open spec fn try_locators(b: BlobView, locators: Seq<LocatorView>) -> StepView<
    RefreshView,
    IndexView,
>
    decreases locators.len(), 1int,
{
    if locators.len() == 0 {
        StepView::Done(Err(VaultError::RetryBudgetExceeded))
    } else if locators[0].index_length == 0 {
        try_index(b, locators, Seq::empty())
    } else if locators[0].index_length > usize::MAX {
        StepView::Done(Err(VaultError::IntegerOverflow))
    } else {
        StepView::Ask(RefreshView { locators })
    }
}

/// What comes of the index of the first locator: where it is not authentic or does not decode,
/// the next locator is tried.
pub open spec fn try_index(
    b: BlobView,
    locators: Seq<LocatorView>,
    ciphertext: Seq<u8>,
) -> StepView<RefreshView, IndexView>
    decreases locators.len(), 0int,
{
    match b.index_of(locators[0], ciphertext) {
        Ok((index, _)) => StepView::Done(Ok(index)),
        Err(error) => if locators.len() > 0 && (error is IndexMacMismatch
            || error is IndexChainBroken) {
            try_locators(b, locators.skip(1))
        } else {
            StepView::Done(Err(error))
        },
    }
}

impl RefreshView {
    /// There is a first locator whose index fits into memory, or none at all.
    pub open spec fn valid(self) -> bool {
        self.locators.len() > 0 ==> self.locators[0].index_length <= usize::MAX
    }

    /// What is asked for.
    pub open spec fn asks(self) -> RequestView {
        if self.locators.len() == 0 {
            slots_request()
        } else {
            index_request(self.locators[0])
        }
    }

    /// What is decided on a reply.
    pub open spec fn on_reply(self, b: BlobView, reply: Reply) -> StepView<RefreshView, IndexView> {
        match reply {
            Reply::Failed(error) => StepView::Done(Err(VaultError::Io(error))),
            Reply::Bytes(bytes) => if self.locators.len() > 0 {
                try_index(b, self.locators, bytes@)
            } else if b.locators(bytes@).len() == 0 {
                StepView::Done(Err(VaultError::NoValidLocator))
            } else {
                try_locators(b, b.locators(bytes@))
            },
            _ => arbitrary(),
        }
    }
}

impl RefreshSnapshot {
    /// What to ask.
    pub fn request(&self) -> (r: Request)
        requires
            self@.valid(),
        ensures
            r@ == self@.asks(),
    {
        if self.locators.len() == 0 {
            Request::Read { offset: VOLATILE_A_OFFSET, length: VOLATILE_SLOTS_LEN }
        } else {
            assert(self@.locators[0] == self.locators@[0]@);
            Request::Read {
                offset: self.locators[0].index_offset,
                length: self.locators[0].index_length as usize,
            }
        }
    }

    /// Takes the reply to what was asked.
    pub fn reply(self, blob: &Blob, reply: Reply) -> (r: Step<RefreshSnapshot, BlobIndex>)
        requires
            self@.valid(),
            answers(self@.asks(), reply),
        ensures
            r@ == self@.on_reply(blob@, reply),
            r is Ask ==> r->Ask_0@.valid(),
    {
        match reply {
            Reply::Failed(error) => Step::Done(Err(VaultError::Io(error))),
            Reply::Bytes(bytes) => {
                if self.locators.len() > 0 {
                    return decide_index(blob, self.locators, bytes);
                }
                match blob.read_sorted_locators(&bytes) {
                    Ok(locators) => decide_locators(blob, locators),
                    Err(error) => Step::Done(Err(error)),
                }
            },
            _ => {
                assert(false);
                Step::Done(Err(VaultError::IndexChainBroken))
            },
        }
    }
}

fn decide_locators(blob: &Blob, locators: Vec<Locator>) -> (r: Step<RefreshSnapshot, BlobIndex>)
    ensures
        r@ == try_locators(blob@, locator_views(locators@)),
        r is Ask ==> r->Ask_0@.valid(),
    decreases locators@.len(), 1int,
{
    if locators.len() == 0 {
        return Step::Done(Err(VaultError::RetryBudgetExceeded));
    }
    assert(locator_views(locators@)[0] == locators@[0]@);
    let length: u64 = locators[0].index_length;
    if length == 0 {
        let nothing: Vec<u8> = Vec::new();
        assert(nothing@ =~= Seq::empty());
        return decide_index(blob, locators, nothing);
    }
    match memory_size(length) {
        Ok(_) => Step::Ask(RefreshSnapshot { locators }),
        Err(error) => Step::Done(Err(error)),
    }
}

fn decide_index(blob: &Blob, locators: Vec<Locator>, ciphertext: Vec<u8>) -> (r: Step<
    RefreshSnapshot,
    BlobIndex,
>)
    requires
        locators@.len() > 0,
    ensures
        r@ == try_index(blob@, locator_views(locators@), ciphertext@),
        r is Ask ==> r->Ask_0@.valid(),
    decreases locators@.len(), 0int,
{
    assert(locator_views(locators@)[0] == locators@[0]@);
    match blob.read_index_with_locator(&locators[0], ciphertext) {
        Ok((index, _)) => Step::Done(Ok(index)),
        Err(error) => {
            let again = match &error {
                VaultError::IndexMacMismatch => true,
                VaultError::IndexChainBroken => true,
                _ => false,
            };
            if !again {
                return Step::Done(Err(error));
            }
            let mut rest: Vec<Locator> = Vec::new();
            let mut i: usize = 1;
            while i < locators.len()
                invariant
                    1 <= i <= locators@.len(),
                    rest@ == locators@.subrange(1, i as int),
                decreases locators@.len() - i,
            {
                rest.push(locators[i]);
                i += 1;
                assert(rest@ =~= locators@.subrange(1, i as int));
            }
            assert(locator_views(rest@) =~= locator_views(locators@).skip(1));
            decide_locators(blob, rest)
        },
    }
}

/// The newest index of the file that is whole: the first among those that the locators lead to.
/// There is none, but an I/O error, where one that has to be read goes beyond the end of the file.
pub open spec fn newest_whole(b: BlobView, image: Seq<u8>, locators: Seq<LocatorView>) -> Option<
    Result<IndexView, VaultError>,
>
    decreases locators.len(),
{
    let locator = locators[0];
    if locators.len() == 0 {
        Some(Err(VaultError::RetryBudgetExceeded))
    } else if locator.index_length > usize::MAX {
        Some(Err(VaultError::IntegerOverflow))
    } else if locator.index_length > 0 && locator.index_offset + locator.index_length
        > image.len() {
        None
    } else {
        match b.index_of(
            locator,
            if locator.index_length == 0 {
                Seq::empty()
            } else {
                index_bytes(locator, image)
            },
        ) {
            Ok((index, _)) => Some(Ok(index)),
            Err(VaultError::IndexMacMismatch) => newest_whole(b, image, locators.skip(1)),
            Err(VaultError::IndexChainBroken) => newest_whole(b, image, locators.skip(1)),
            Err(error) => Some(Err(error)),
        }
    }
}

/// What looking for the newest index that is whole finds in a file.
pub open spec fn snapshot_in(b: BlobView, image: Seq<u8>) -> Option<Result<IndexView, VaultError>> {
    if image.len() < FRONT_MATTER_LEN {
        None
    } else if b.locators(slots_in(image)).len() == 0 {
        Some(Err(VaultError::NoValidLocator))
    } else {
        newest_whole(b, image, b.locators(slots_in(image)))
    }
}

impl RefreshView {
    /// On a file that answers as it should, a step ends with what is expected after `n` more
    /// requests at most, or with an I/O error where nothing is expected.
    pub open spec fn settles(
        step: StepView<RefreshView, IndexView>,
        b: BlobView,
        image: Seq<u8>,
        expected: Option<Result<IndexView, VaultError>>,
        n: nat,
    ) -> bool
        decreases n,
    {
        match step {
            StepView::Done(result) => match expected {
                Some(outcome) => result == outcome,
                None => result is Err && result->Err_0 is Io,
            },
            StepView::Ask(operation) => n > 0 && forall|reply: Reply| #[trigger]
                honest(image, operation.asks(), reply) ==> RefreshView::settles(
                    operation.on_reply(b, reply),
                    b,
                    image,
                    expected,
                    (n - 1) as nat,
                ),
        }
    }
}

proof fn lemma_locators_settle(b: BlobView, image: Seq<u8>, locators: Seq<LocatorView>, n: nat)
    requires
        n >= locators.len(),
    ensures
        RefreshView::settles(
            try_locators(b, locators),
            b,
            image,
            newest_whole(b, image, locators),
            n,
        ),
    decreases locators.len(),
{
    if locators.len() > 0 {
        let locator = locators[0];
        let rest = locators.skip(1);
        let expected = newest_whole(b, image, locators);
        if locator.index_length == 0 {
            lemma_locators_settle(b, image, rest, n);
        } else if locator.index_length <= usize::MAX {
            let operation = RefreshView { locators };
            lemma_locators_settle(b, image, rest, (n - 1) as nat);
            assert forall|reply: Reply| #[trigger]
                honest(image, operation.asks(), reply) implies RefreshView::settles(
                operation.on_reply(b, reply),
                b,
                image,
                expected,
                (n - 1) as nat,
            ) by {
                if locator.index_offset + locator.index_length <= image.len() {
                    assert(reply->Bytes_0@ =~= index_bytes(locator, image));
                }
            }
        }
    }
}

/// On a file that answers as it should, the newest index that is whole is found.
pub proof fn lemma_snapshot_settles(b: BlobView, image: Seq<u8>)
    ensures
        RefreshView::settles(
            StepView::Ask(RefreshView { locators: Seq::empty() }),
            b,
            image,
            snapshot_in(b, image),
            3,
        ),
{
    let operation = RefreshView { locators: Seq::empty() };
    assert forall|reply: Reply| #[trigger]
        honest(image, operation.asks(), reply) implies RefreshView::settles(
        operation.on_reply(b, reply),
        b,
        image,
        snapshot_in(b, image),
        2,
    ) by {
        if image.len() >= FRONT_MATTER_LEN {
            assert(reply->Bytes_0@ =~= slots_in(image));
            lemma_locators_settle(b, image, b.locators(slots_in(image)), 2);
        }
    }
}

impl Blob {
    /// Starts looking for the newest index that is whole.
    pub fn refresh_committed_snapshot(&self) -> (r: RefreshSnapshot)
        ensures
            r@ == (RefreshView { locators: Seq::empty() }),
            r@.valid(),
            forall|image: Seq<u8>|
                RefreshView::settles(
                    StepView::Ask(r@),
                    self@,
                    image,
                    #[trigger] snapshot_in(self@, image),
                    3,
                ),
    {
        let start = RefreshSnapshot { locators: Vec::new() };
        assert(start@ =~= (RefreshView { locators: Seq::empty() }));
        proof {
            assert forall|image: Seq<u8>|
                RefreshView::settles(
                    StepView::Ask(start@),
                    self@,
                    image,
                    #[trigger] snapshot_in(self@, image),
                    3,
                ) by {
                lemma_snapshot_settles(self@, image);
            }
        }
        start
    }
}

/// Reads one chunk.
pub struct ReadChunk {
    pub entry: ChunkEntry,
}

impl View for ReadChunk {
    type V = ChunkView;

    open spec fn view(&self) -> ChunkView {
        self.entry@
    }
}

/// The frame of the chunk has a length that fits into memory.
pub open spec fn frame_fits(entry: ChunkView) -> bool {
    entry.plaintext_length + AEAD_FRAME_OVERHEAD <= usize::MAX && entry.plaintext_length
        + AEAD_FRAME_OVERHEAD <= u64::MAX
}

/// The request for a chunk's frame.
pub open spec fn frame_request(entry: ChunkView) -> RequestView {
    RequestView::Read {
        offset: entry.offset_in_blob,
        length: (entry.plaintext_length + AEAD_FRAME_OVERHEAD) as usize,
    }
}

/// What reading a chunk starts with.
pub open spec fn start_chunk(entry: ChunkView) -> StepView<ChunkView, Seq<u8>> {
    if frame_fits(entry) {
        StepView::Ask(entry)
    } else {
        StepView::Done(Err(VaultError::IntegerOverflow))
    }
}

/// What is decided on a reply to the request for a chunk's frame.
pub open spec fn on_frame(b: BlobView, entry: ChunkView, reply: Reply) -> StepView<
    ChunkView,
    Seq<u8>,
> {
    match reply {
        Reply::Failed(error) => StepView::Done(Err(VaultError::Io(error))),
        Reply::Bytes(bytes) => StepView::Done(b.chunk_of(entry, bytes@)),
        _ => arbitrary(),
    }
}

impl ReadChunk {
    /// What to ask.
    pub fn request(&self) -> (r: Request)
        requires
            frame_fits(self@),
        ensures
            r@ == frame_request(self@),
    {
        Request::Read {
            offset: self.entry.offset_in_blob,
            length: (self.entry.plaintext_length + AEAD_FRAME_OVERHEAD) as usize,
        }
    }

    /// Takes the reply to what was asked.
    pub fn reply(self, blob: &Blob, reply: Reply) -> (r: Step<ReadChunk, Vec<u8>>)
        requires
            frame_fits(self@),
            answers(frame_request(self@), reply),
        ensures
            r@ == on_frame(blob@, self@, reply),
            r is Done,
    {
        match reply {
            Reply::Failed(error) => Step::Done(Err(VaultError::Io(error))),
            Reply::Bytes(frame) => Step::Done(blob.decrypt_chunk(&self.entry, &frame)),
            _ => {
                assert(false);
                Step::Done(Err(VaultError::AeadDecryptFailed))
            },
        }
    }
}

impl Blob {
    /// Starts reading a chunk.
    pub fn read_chunk(&self, entry: &ChunkEntry) -> (r: Step<ReadChunk, Vec<u8>>)
        ensures
            r@ == start_chunk(entry@),
    {
        let frame_len: u64 = match checked_add(entry.plaintext_length, AEAD_FRAME_OVERHEAD) {
            Ok(len) => len,
            Err(error) => return Step::Done(Err(error)),
        };
        match memory_size(frame_len) {
            Ok(_) => Step::Ask(ReadChunk { entry: *entry }),
            Err(error) => Step::Done(Err(error)),
        }
    }
}

/// On a file that answers as it should, a chunk that lies inside the file reads as what stands in
/// its place.
pub proof fn law_chunk_is_read(b: BlobView, image: Seq<u8>, entry: ChunkView, reply: Reply)
    requires
        frame_fits(entry),
        entry.offset_in_blob + entry.plaintext_length + AEAD_FRAME_OVERHEAD <= image.len(),
        honest(image, frame_request(entry), reply),
    ensures
        start_chunk(entry) == StepView::<ChunkView, Seq<u8>>::Ask(entry),
        on_frame(b, entry, reply) == StepView::<ChunkView, Seq<u8>>::Done(
            b.stored_chunk(entry, image),
        ),
{
    assert(reply->Bytes_0@ =~= frame_in(entry, image));
}

/// Reads the chunk with a given place in a given file.
pub struct ReadChunkById {
    pub file_id: FileId,
    pub sequence_number: u64,
    pub stage: ByIdStage,
}

/// How far a [`ReadChunkById`] is.
pub enum ByIdStage {
    Index(ReadIndex),
    Chunk(ReadChunk),
}

/// What a [`ReadChunkById`] is about.
#[verifier::ext_equal]
pub struct ByIdView {
    pub file_id: Seq<u8>,
    pub sequence_number: u64,
    pub stage: ByIdStageView,
}

/// How far a [`ReadChunkById`] is.
#[verifier::ext_equal]
pub enum ByIdStageView {
    Index(ReadIndexView),
    Chunk(ChunkView),
}

impl View for ReadChunkById {
    type V = ByIdView;

    open spec fn view(&self) -> ByIdView {
        ByIdView {
            file_id: self.file_id@,
            sequence_number: self.sequence_number,
            stage: match self.stage {
                ByIdStage::Index(operation) => ByIdStageView::Index(operation@),
                ByIdStage::Chunk(operation) => ByIdStageView::Chunk(operation@),
            },
        }
    }
}

/// The entry is that of the chunk.
pub open spec fn is_chunk(entry: ChunkView, file_id: Seq<u8>, sequence_number: u64) -> bool {
    entry.file_id == file_id && entry.sequence_number == sequence_number
}

/// The first entry of the chunk, where there is one.
pub open spec fn find_chunk(
    entries: Seq<ChunkView>,
    file_id: Seq<u8>,
    sequence_number: u64,
) -> Option<ChunkView>
    decreases entries.len(),
{
    if entries.len() == 0 {
        None
    } else if is_chunk(entries[0], file_id, sequence_number) {
        Some(entries[0])
    } else {
        find_chunk(entries.skip(1), file_id, sequence_number)
    }
}

impl ByIdView {
    /// What is being read fits into memory.
    pub open spec fn valid(self) -> bool {
        match self.stage {
            ByIdStageView::Index(operation) => operation.valid(),
            ByIdStageView::Chunk(entry) => frame_fits(entry),
        }
    }

    /// What is asked for.
    pub open spec fn asks(self) -> RequestView {
        match self.stage {
            ByIdStageView::Index(operation) => operation.asks(),
            ByIdStageView::Chunk(entry) => frame_request(entry),
        }
    }

    /// What is decided once the index is there.
    pub open spec fn on_entries(self, entries: Seq<ChunkView>) -> StepView<ByIdView, Seq<u8>> {
        match find_chunk(entries, self.file_id, self.sequence_number) {
            None => StepView::Done(Err(VaultError::IndexChainBroken)),
            Some(entry) => if frame_fits(entry) {
                StepView::Ask(ByIdView { stage: ByIdStageView::Chunk(entry), ..self })
            } else {
                StepView::Done(Err(VaultError::IntegerOverflow))
            },
        }
    }

    /// What is decided on a reply.
    pub open spec fn on_reply(self, b: BlobView, reply: Reply) -> StepView<ByIdView, Seq<u8>> {
        match self.stage {
            ByIdStageView::Index(operation) => match operation.on_reply(b, reply) {
                StepView::Ask(next) => StepView::Ask(
                    ByIdView { stage: ByIdStageView::Index(next), ..self },
                ),
                StepView::Done(Ok(index)) => self.on_entries(index.chunks),
                StepView::Done(Err(error)) => StepView::Done(Err(error)),
            },
            ByIdStageView::Chunk(entry) => match on_frame(b, entry, reply) {
                StepView::Ask(_) => arbitrary(),
                StepView::Done(result) => StepView::Done(result),
            },
        }
    }
}

fn find_entry(entries: &Vec<ChunkEntry>, file_id: &FileId, sequence_number: u64) -> (r: Option<
    ChunkEntry,
>)
    ensures
        match r {
            Some(entry) => find_chunk(chunk_views(entries@), file_id@, sequence_number) == Some(
                entry@,
            ),
            None => find_chunk(chunk_views(entries@), file_id@, sequence_number) is None,
        },
{
    let ghost views = chunk_views(entries@);
    let mut i: usize = 0;
    assert(views.skip(0) =~= views);
    while i < entries.len()
        invariant
            i <= entries@.len(),
            views == chunk_views(entries@),
            find_chunk(views, file_id@, sequence_number) == find_chunk(
                views.skip(i as int),
                file_id@,
                sequence_number,
            ),
        decreases entries@.len() - i,
    {
        assert(views.skip(i as int)[0] == entries@[i as int]@);
        if entries[i].file_id == *file_id && entries[i].sequence_number == sequence_number {
            return Some(entries[i]);
        }
        assert(views.skip(i as int).skip(1) =~= views.skip(i + 1));
        i += 1;
    }
    None
}

impl ReadChunkById {
    /// What to ask.
    pub fn request(&self) -> (r: Request)
        requires
            self@.valid(),
        ensures
            r@ == self@.asks(),
    {
        match &self.stage {
            ByIdStage::Index(operation) => operation.request(),
            ByIdStage::Chunk(operation) => operation.request(),
        }
    }

    /// Takes the reply to what was asked.
    pub fn reply(self, blob: &Blob, reply: Reply) -> (r: Step<ReadChunkById, Vec<u8>>)
        requires
            self@.valid(),
            answers(self@.asks(), reply),
        ensures
            r@ == self@.on_reply(blob@, reply),
            r is Ask ==> r->Ask_0@.valid(),
    {
        let file_id = self.file_id;
        let sequence_number = self.sequence_number;
        match self.stage {
            ByIdStage::Index(operation) => match operation.reply(blob, reply) {
                Step::Ask(next) => Step::Ask(
                    ReadChunkById { file_id, sequence_number, stage: ByIdStage::Index(next) },
                ),
                Step::Done(Ok(index)) => {
                    let entry = match find_entry(&index.chunks, &file_id, sequence_number) {
                        Some(entry) => entry,
                        None => return Step::Done(Err(VaultError::IndexChainBroken)),
                    };
                    match blob.read_chunk(&entry) {
                        Step::Ask(next) => Step::Ask(
                            ReadChunkById {
                                file_id,
                                sequence_number,
                                stage: ByIdStage::Chunk(next),
                            },
                        ),
                        Step::Done(result) => Step::Done(result),
                    }
                },
                Step::Done(Err(error)) => Step::Done(Err(error)),
            },
            ByIdStage::Chunk(operation) => match operation.reply(blob, reply) {
                Step::Done(result) => Step::Done(result),
                Step::Ask(next) => Step::Ask(
                    ReadChunkById { file_id, sequence_number, stage: ByIdStage::Chunk(next) },
                ),
            },
        }
    }
}

impl Blob {
    /// Starts reading the chunk with a given place in a given file.
    pub fn read_chunk_by_id(&self, file_id: FileId, sequence_number: u64) -> (r: ReadChunkById)
        ensures
            r@ == (ByIdView {
                file_id: file_id@,
                sequence_number,
                stage: ByIdStageView::Index(
                    ReadIndexView {
                        retries: self@.config.reader_retry_budget,
                        locator: None,
                    },
                ),
            }),
            r@.valid(),
    {
        ReadChunkById { file_id, sequence_number, stage: ByIdStage::Index(self.read_index()) }
    }
}

/// Measures a blob file.
pub struct MeasureLayout {
    pub stage: MeasureStage,
}

/// How far a [`MeasureLayout`] is.
pub enum MeasureStage {
    Slots,
    Index(Locator),
    Length { locator: Locator, index: BlobIndex, plaintext_len: u64 },
}

/// How far a [`MeasureLayout`] is.
#[verifier::ext_equal]
pub enum MeasureView {
    Slots,
    Index(LocatorView),
    Length { locator: LocatorView, index: IndexView, plaintext_len: u64 },
}

impl View for MeasureLayout {
    type V = MeasureView;

    open spec fn view(&self) -> MeasureView {
        match self.stage {
            MeasureStage::Slots => MeasureView::Slots,
            MeasureStage::Index(locator) => MeasureView::Index(locator@),
            MeasureStage::Length { locator, index, plaintext_len } => MeasureView::Length {
                locator: locator@,
                index: index@,
                plaintext_len,
            },
        }
    }
}

impl View for BlobLayoutStats {
    type V = BlobLayoutStats;

    open spec fn view(&self) -> BlobLayoutStats {
        *self
    }
}

impl MeasureView {
    /// The index of the locator fits into memory.
    pub open spec fn valid(self) -> bool {
        self is Index ==> self->Index_0.index_length <= usize::MAX
    }

    /// What is asked for.
    pub open spec fn asks(self) -> RequestView {
        match self {
            MeasureView::Slots => slots_request(),
            MeasureView::Index(locator) => index_request(locator),
            MeasureView::Length { .. } => RequestView::Length,
        }
    }

    /// What is decided on a reply.
    pub open spec fn on_reply(self, b: BlobView, reply: Reply) -> StepView<
        MeasureView,
        BlobLayoutStats,
    > {
        match (self, reply) {
            (_, Reply::Failed(error)) => StepView::Done(Err(VaultError::Io(error))),
            (MeasureView::Slots, Reply::Bytes(slots)) => if b.locators(slots@).len() == 0 {
                StepView::Done(Err(VaultError::NoValidLocator))
            } else {
                let locator = b.locators(slots@)[0];
                if locator.index_length == 0 {
                    measure_index(b, locator, Seq::empty())
                } else if locator.index_length > usize::MAX {
                    StepView::Done(Err(VaultError::IntegerOverflow))
                } else {
                    StepView::Ask(MeasureView::Index(locator))
                }
            },
            (MeasureView::Index(locator), Reply::Bytes(bytes)) => measure_index(
                b,
                locator,
                bytes@,
            ),
            (MeasureView::Length { locator, index, plaintext_len }, Reply::Length(size)) =>
                if stats_fit(locator, index, size as int) {
                    StepView::Done(
                        Ok(stats_of(locator, index, plaintext_len as int, size as int)),
                    )
                } else {
                    StepView::Done(Err(VaultError::IntegerOverflow))
                },
            _ => arbitrary(),
        }
    }
}

/// What is decided on an index that is to be measured.
pub open spec fn measure_index(b: BlobView, locator: LocatorView, ciphertext: Seq<u8>) -> StepView<
    MeasureView,
    BlobLayoutStats,
> {
    match b.index_of(locator, ciphertext) {
        Ok((index, plaintext)) => StepView::Ask(
            MeasureView::Length { locator, index, plaintext_len: plaintext.len() as u64 },
        ),
        Err(error) => StepView::Done(Err(error)),
    }
}

impl MeasureLayout {
    /// What to ask.
    pub fn request(&self) -> (r: Request)
        requires
            self@.valid(),
        ensures
            r@ == self@.asks(),
    {
        match &self.stage {
            MeasureStage::Slots => Request::Read {
                offset: VOLATILE_A_OFFSET,
                length: VOLATILE_SLOTS_LEN,
            },
            MeasureStage::Index(locator) => Request::Read {
                offset: locator.index_offset,
                length: locator.index_length as usize,
            },
            MeasureStage::Length { .. } => Request::Length,
        }
    }

    /// Takes the reply to what was asked.
    pub fn reply(self, blob: &Blob, reply: Reply) -> (r: Step<MeasureLayout, BlobLayoutStats>)
        requires
            self@.valid(),
            answers(self@.asks(), reply),
        ensures
            r@ == self@.on_reply(blob@, reply),
            r is Ask ==> r->Ask_0@.valid(),
    {
        match (self.stage, reply) {
            (_, Reply::Failed(error)) => Step::Done(Err(VaultError::Io(error))),
            (MeasureStage::Slots, Reply::Bytes(slots)) => {
                let locators = match blob.read_sorted_locators(&slots) {
                    Ok(locators) => locators,
                    Err(error) => return Step::Done(Err(error)),
                };
                let locator = locators[0];
                assert(locator@ == blob@.locators(slots@)[0]);
                if locator.index_length == 0 {
                    let nothing: Vec<u8> = Vec::new();
                    assert(nothing@ =~= Seq::empty());
                    return decide_measure(blob, locator, nothing);
                }
                match memory_size(locator.index_length) {
                    Ok(_) => Step::Ask(MeasureLayout { stage: MeasureStage::Index(locator) }),
                    Err(error) => Step::Done(Err(error)),
                }
            },
            (MeasureStage::Index(locator), Reply::Bytes(bytes)) => decide_measure(
                blob,
                locator,
                bytes,
            ),
            (MeasureStage::Length { locator, index, plaintext_len }, Reply::Length(size)) =>
                Step::Done(layout_breakdown(&locator, &index, plaintext_len, size)),
            _ => {
                assert(false);
                Step::Done(Err(VaultError::IndexChainBroken))
            },
        }
    }
}

fn decide_measure(blob: &Blob, locator: Locator, ciphertext: Vec<u8>) -> (r: Step<
    MeasureLayout,
    BlobLayoutStats,
>)
    ensures
        r@ == measure_index(blob@, locator@, ciphertext@),
        r is Ask ==> r->Ask_0@.valid(),
{
    match blob.read_index_with_locator(&locator, ciphertext) {
        Ok((index, plaintext)) => Step::Ask(
            MeasureLayout {
                stage: MeasureStage::Length {
                    locator,
                    index,
                    plaintext_len: plaintext.len() as u64,
                },
            },
        ),
        Err(error) => Step::Done(Err(error)),
    }
}

/// The layout of a file by its canonical index. There is none, but an I/O error, where what has to be
/// read goes beyond the end of the file.
pub open spec fn layout_in(b: BlobView, image: Seq<u8>) -> Option<
    Result<BlobLayoutStats, VaultError>,
> {
    let locator = b.active(image);
    if image.len() < FRONT_MATTER_LEN {
        None
    } else if b.locators(slots_in(image)).len() == 0 {
        Some(Err(VaultError::NoValidLocator))
    } else if locator.index_length > usize::MAX {
        Some(Err(VaultError::IntegerOverflow))
    } else if locator.index_length > 0 && locator.index_offset + locator.index_length
        > image.len() {
        None
    } else {
        match b.index_of(
            locator,
            if locator.index_length == 0 {
                Seq::empty()
            } else {
                index_bytes(locator, image)
            },
        ) {
            Err(error) => Some(Err(error)),
            Ok((index, plaintext)) => if stats_fit(locator, index, image.len() as int) {
                Some(
                    Ok(
                        stats_of(
                            locator,
                            index,
                            plaintext.len() as int,
                            image.len() as int,
                        ),
                    ),
                )
            } else {
                Some(Err(VaultError::IntegerOverflow))
            },
        }
    }
}

impl MeasureView {
    /// On a file that answers as it should, a step ends with what is expected after `n` more
    /// requests at most, or with an I/O error where nothing is expected.
    pub open spec fn settles(
        step: StepView<MeasureView, BlobLayoutStats>,
        b: BlobView,
        image: Seq<u8>,
        expected: Option<Result<BlobLayoutStats, VaultError>>,
        n: nat,
    ) -> bool
        decreases n,
    {
        match step {
            StepView::Done(result) => match expected {
                Some(outcome) => result == outcome,
                None => result is Err && result->Err_0 is Io,
            },
            StepView::Ask(operation) => n > 0 && forall|reply: Reply| #[trigger]
                honest(image, operation.asks(), reply) ==> MeasureView::settles(
                    operation.on_reply(b, reply),
                    b,
                    image,
                    expected,
                    (n - 1) as nat,
                ),
        }
    }
}

/// Where the canonical index was read, the layout is what comes out.
proof fn lemma_index_measured(b: BlobView, image: Seq<u8>, ciphertext: Seq<u8>, n: nat)
    requires
        n > 0,
        image.len() >= FRONT_MATTER_LEN,
        b.locators(slots_in(image)).len() > 0,
        b.active(image).index_length <= usize::MAX,
        if b.active(image).index_length == 0 {
            ciphertext == Seq::<u8>::empty()
        } else {
            &&& b.active(image).index_offset + b.active(image).index_length <= image.len()
            &&& ciphertext == index_bytes(b.active(image), image)
        },
    ensures
        MeasureView::settles(
            measure_index(b, b.active(image), ciphertext),
            b,
            image,
            layout_in(b, image),
            n,
        ),
{
    let locator = b.active(image);
    let step = measure_index(b, locator, ciphertext);
    if let StepView::Ask(operation) = step {
        assert forall|reply: Reply| #[trigger]
            honest(image, operation.asks(), reply) implies MeasureView::settles(
            operation.on_reply(b, reply),
            b,
            image,
            layout_in(b, image),
            (n - 1) as nat,
        ) by {
        }
    }
}

/// On a file that answers as it should, measuring gives its layout.
pub proof fn lemma_layout_settles(b: BlobView, image: Seq<u8>)
    ensures
        MeasureView::settles(
            StepView::Ask(MeasureView::Slots),
            b,
            image,
            layout_in(b, image),
            3,
        ),
{
    let start = MeasureView::Slots;
    let locator = b.active(image);
    let expected = layout_in(b, image);
    assert forall|reply: Reply| #[trigger]
        honest(image, start.asks(), reply) implies MeasureView::settles(
        start.on_reply(b, reply),
        b,
        image,
        expected,
        2,
    ) by {
        if image.len() >= FRONT_MATTER_LEN {
            assert(reply->Bytes_0@ =~= slots_in(image));
            if b.locators(slots_in(image)).len() > 0 {
                if locator.index_length == 0 {
                    lemma_index_measured(b, image, Seq::empty(), 2);
                } else if locator.index_length <= usize::MAX {
                    let next = MeasureView::Index(locator);
                    assert forall|second: Reply| #[trigger]
                        honest(image, next.asks(), second) implies MeasureView::settles(
                        next.on_reply(b, second),
                        b,
                        image,
                        expected,
                        1,
                    ) by {
                        if locator.index_offset + locator.index_length <= image.len() {
                            assert(second->Bytes_0@ =~= index_bytes(locator, image));
                            lemma_index_measured(b, image, index_bytes(locator, image), 1);
                        }
                    }
                }
            }
        }
    }
}

impl Blob {
    /// Starts measuring the blob's file.
    pub fn layout_stats(&self) -> (r: MeasureLayout)
        ensures
            r@ == MeasureView::Slots,
            r@.valid(),
            forall|image: Seq<u8>|
                MeasureView::settles(
                    StepView::Ask(r@),
                    self@,
                    image,
                    #[trigger] layout_in(self@, image),
                    3,
                ),
    {
        proof {
            assert forall|image: Seq<u8>|
                MeasureView::settles(
                    StepView::Ask(MeasureView::Slots),
                    self@,
                    image,
                    #[trigger] layout_in(self@, image),
                    3,
                ) by {
                lemma_layout_settles(self@, image);
            }
        }
        MeasureLayout { stage: MeasureStage::Slots }
    }
}

} // verus!
