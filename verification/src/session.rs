//! The operations on a vault. Each asks something of one of the vault's blob files at a time.

use vstd::prelude::*;

use crate::blob::{Blob, BlobView};
use crate::error::VaultError;
use crate::index::{BlobIndex, IndexView};
use crate::read::{
    layout_in, lemma_layout_settles, MeasureLayout, MeasureView, ReadIndex, ReadIndexView,
    RefreshSnapshot, RefreshView,
};
use crate::stats::BlobLayoutStats;
use crate::storage::{answers, honest, Reply, Request, Step, StepView};
use crate::types::{BlobId, VaultId};
use crate::vault::{
    blob_views, empty_vault_index, validate_vault_config, Vault, VaultConfig, VaultIndex, VaultView,
};

verus! {

/// Where a blob with the given identity is among the vault's blobs.
pub open spec fn position_of(blobs: Seq<BlobView>, blob_id: Seq<u8>, from: int) -> Option<int>
    decreases blobs.len() - from,
{
    if from >= blobs.len() {
        None
    } else if blobs[from].blob_id == blob_id {
        Some(from)
    } else {
        position_of(blobs, blob_id, from + 1)
    }
}

impl VaultView {
    /// The vault once a blob's index is known.
    pub open spec fn with_blob_index(self, at: int, index: IndexView) -> VaultView {
        VaultView { index: self.index.replaced(self.blobs[at].blob_id, index), ..self }
    }
}

impl Vault {
    /// Where a blob is among the vault's blobs.
    pub fn blob_position(&self, blob_id: BlobId) -> (r: Result<usize, VaultError>)
        ensures
            match r {
                Ok(i) => position_of(self@.blobs, blob_id@, 0) == Some(i as int) && i
                    < self@.blobs.len(),
                Err(error) => position_of(self@.blobs, blob_id@, 0) is None && error
                    == VaultError::BlobNotFound,
            },
    {
        let mut i: usize = 0;
        while i < self.blobs.len()
            invariant
                i <= self.blobs@.len(),
                position_of(self@.blobs, blob_id@, 0) == position_of(
                    self@.blobs,
                    blob_id@,
                    i as int,
                ),
            decreases self.blobs@.len() - i,
        {
            if self.blobs[i].blob_id == blob_id {
                return Ok(i);
            }
            i += 1;
        }
        Err(VaultError::BlobNotFound)
    }

    /// Puts a blob's index in place of what was known of that blob.
    pub(crate) fn store_index(&mut self, at: usize, index: &BlobIndex)
        requires
            at < old(self)@.blobs.len(),
        ensures
            final(self)@ == old(self)@.with_blob_index(at as int, index@),
            final(self).blobs == old(self).blobs,
    {
        let blob_id = self.blobs[at].blob_id;
        self.index.replace_cached_blob_index(blob_id, index);
        assert(self@ =~= old(self)@.with_blob_index(at as int, index@));
    }
}

/// Reads the indexes of all blobs.
pub struct RefreshIndexes {
    pub at: usize,
    pub operation: RefreshSnapshot,
}

/// What a [`RefreshIndexes`] is about: the blob whose index is being read.
#[verifier::ext_equal]
pub struct RefreshIndexesView {
    pub at: int,
    pub operation: RefreshView,
}

impl View for RefreshIndexes {
    type V = RefreshIndexesView;

    open spec fn view(&self) -> RefreshIndexesView {
        RefreshIndexesView { at: self.at as int, operation: self.operation@ }
    }
}

/// The start of reading a blob's index.
pub open spec fn refresh_start() -> RefreshView {
    RefreshView { locators: Seq::empty() }
}

impl RefreshIndexesView {
    /// The blob is one of the vault.
    pub open spec fn valid(self, v: VaultView) -> bool {
        0 <= self.at < v.blobs.len() && self.operation.valid()
    }

    /// What is decided on a reply, and what the vault is then.
    pub open spec fn on_reply(self, v: VaultView, reply: Reply) -> (
        StepView<RefreshIndexesView, ()>,
        VaultView,
    ) {
        match self.operation.on_reply(v.blobs[self.at], reply) {
            StepView::Ask(operation) => (
                StepView::Ask(RefreshIndexesView { at: self.at, operation }),
                v,
            ),
            StepView::Done(Err(error)) => (StepView::Done(Err(error)), v),
            StepView::Done(Ok(index)) => (
                if self.at + 1 < v.blobs.len() {
                    StepView::Ask(
                        RefreshIndexesView { at: self.at + 1, operation: refresh_start() },
                    )
                } else {
                    StepView::Done(Ok(()))
                },
                v.with_blob_index(self.at, index),
            ),
        }
    }
}

impl RefreshIndexes {
    /// What to ask, and of which blob's file.
    pub fn request(&self, vault: &Vault) -> (r: (usize, Request))
        requires
            self@.valid(vault@),
        ensures
            r.0 == self@.at,
            r.1@ == self@.operation.asks(),
    {
        (self.at, self.operation.request())
    }

    /// Takes the reply to what was asked.
    pub fn reply(self, vault: &mut Vault, reply: Reply) -> (r: Step<RefreshIndexes, ()>)
        requires
            self@.valid(old(vault)@),
            answers(self@.operation.asks(), reply),
        ensures
            (r@, final(vault)@) == self@.on_reply(old(vault)@, reply),
            r is Ask ==> r->Ask_0@.valid(final(vault)@),
            old(vault)@.valid() ==> final(vault)@.valid(),
            final(vault).blobs == old(vault).blobs,
    {
        let at = self.at;
        match self.operation.reply(&vault.blobs[at], reply) {
            Step::Ask(operation) => Step::Ask(RefreshIndexes { at, operation }),
            Step::Done(Err(error)) => Step::Done(Err(error)),
            Step::Done(Ok(index)) => {
                vault.store_index(at, &index);
                let count: usize = vault.blobs.len();
                if at + 1 < count {
                    let operation = vault.blobs[at + 1].refresh_committed_snapshot();
                    Step::Ask(RefreshIndexes { at: at + 1, operation })
                } else {
                    Step::Done(Ok(()))
                }
            },
        }
    }
}

impl Vault {
    /// Open a vault from already-opened blobs. Where indexes are to be cached, the operation that
    /// reads them comes with the vault.
    pub fn open(vault_id: VaultId, blobs: Vec<Blob>, config: VaultConfig) -> (r: Result<
        (Vault, Option<RefreshIndexes>),
        VaultError,
    >)
        ensures
            ({
                let v = VaultView {
                    vault_id: vault_id@,
                    blobs: blob_views(blobs@),
                    config,
                    index: empty_vault_index(),
                    cursor: 0,
                };
                match r {
                    Err(error) => !v.valid() && error == VaultError::InvalidConfig,
                    Ok((vault, refresh)) => {
                        &&& v.valid()
                        &&& vault@ == v
                        &&& vault.blobs == blobs
                        &&& refresh is Some <==> config.cache_indexes_on_open
                        &&& refresh is Some ==> refresh->0@ == (RefreshIndexesView {
                            at: 0,
                            operation: refresh_start(),
                        })
                    },
                }
            }),
    {
        let ghost v = VaultView {
            vault_id: vault_id@,
            blobs: blob_views(blobs@),
            config,
            index: empty_vault_index(),
            cursor: 0,
        };
        match validate_vault_config(&config) {
            Ok(()) => {},
            Err(error) => return Err(error),
        }
        if blobs.len() == 0 {
            return Err(VaultError::InvalidConfig);
        }
        let mut i: usize = 0;
        while i < blobs.len()
            invariant
                i <= blobs@.len(),
                v.blobs == blob_views(blobs@),
                v.vault_id == vault_id@,
                forall|j: int| 0 <= j < i ==> (#[trigger] v.blobs[j]).vault_id == vault_id@,
            decreases blobs@.len() - i,
        {
            if blobs[i].vault_id != vault_id {
                assert(v.blobs[i as int].vault_id != v.vault_id);
                return Err(VaultError::InvalidConfig);
            }
            i += 1;
        }
        let vault = Vault {
            vault_id,
            blobs,
            config,
            index: VaultIndex::default(),
            next_blob_cursor: 0,
        };
        assert(vault@ =~= v);
        let refresh = if config.cache_indexes_on_open {
            Some(
                RefreshIndexes {
                    at: 0,
                    operation: vault.blobs[0].refresh_committed_snapshot(),
                },
            )
        } else {
            None
        };
        Ok((vault, refresh))
    }

    /// Forgets what is known and starts reading the indexes of all blobs.
    pub fn refresh_indexes(&mut self) -> (r: RefreshIndexes)
        requires
            old(self)@.blobs.len() > 0,
        ensures
            final(self)@ == (VaultView { index: empty_vault_index(), ..old(self)@ }),
            final(self).blobs == old(self).blobs,
            r@ == (RefreshIndexesView { at: 0, operation: refresh_start() }),
            r@.valid(final(self)@),
            old(self)@.valid() ==> final(self)@.valid(),
    {
        self.index = VaultIndex::default();
        assert(self@ =~= (VaultView { index: empty_vault_index(), ..old(self)@ }));
        RefreshIndexes { at: 0, operation: self.blobs[0].refresh_committed_snapshot() }
    }
}

/// Reads the index of a blob that was just attached.
pub struct AttachBlob {
    pub at: usize,
    pub operation: RefreshSnapshot,
}

impl View for AttachBlob {
    type V = RefreshIndexesView;

    open spec fn view(&self) -> RefreshIndexesView {
        RefreshIndexesView { at: self.at as int, operation: self.operation@ }
    }
}

/// What is decided on a reply while a blob is attached, and what the vault is then.
pub open spec fn on_attach_reply(operation: RefreshIndexesView, v: VaultView, reply: Reply) -> (
    StepView<RefreshIndexesView, ()>,
    VaultView,
) {
    match operation.operation.on_reply(v.blobs[operation.at], reply) {
        StepView::Ask(next) => (
            StepView::Ask(RefreshIndexesView { at: operation.at, operation: next }),
            v,
        ),
        StepView::Done(Err(error)) => (StepView::Done(Err(error)), v),
        StepView::Done(Ok(index)) => (
            StepView::Done(Ok(())),
            v.with_blob_index(operation.at, index),
        ),
    }
}

impl AttachBlob {
    /// What to ask, and of which blob's file.
    pub fn request(&self, vault: &Vault) -> (r: (usize, Request))
        requires
            self@.valid(vault@),
        ensures
            r.0 == self@.at,
            r.1@ == self@.operation.asks(),
    {
        (self.at, self.operation.request())
    }

    /// Takes the reply to what was asked.
    pub fn reply(self, vault: &mut Vault, reply: Reply) -> (r: Step<AttachBlob, ()>)
        requires
            self@.valid(old(vault)@),
            answers(self@.operation.asks(), reply),
        ensures
            (r@, final(vault)@) == on_attach_reply(self@, old(vault)@, reply),
            r is Ask ==> r->Ask_0@.valid(final(vault)@),
            old(vault)@.valid() ==> final(vault)@.valid(),
            final(vault).blobs == old(vault).blobs,
    {
        let at = self.at;
        match self.operation.reply(&vault.blobs[at], reply) {
            Step::Ask(operation) => Step::Ask(AttachBlob { at, operation }),
            Step::Done(Err(error)) => Step::Done(Err(error)),
            Step::Done(Ok(index)) => {
                vault.store_index(at, &index);
                Step::Done(Ok(()))
            },
        }
    }
}

impl Vault {
    /// Attach a blob to this vault and start loading its index into the cache. A blob of another
    /// vault is refused.
    pub fn append_blob(&mut self, blob: Blob) -> (r: Result<AttachBlob, VaultError>)
        ensures
            if blob@.vault_id != old(self)@.vault_id {
                r == Err::<AttachBlob, VaultError>(VaultError::InvalidConfig) && *final(self)
                    == *old(self)
            } else {
                &&& r is Ok
                &&& final(self)@ == (VaultView {
                    blobs: old(self)@.blobs.push(blob@),
                    ..old(self)@
                })
                &&& final(self).blobs@ == old(self).blobs@.push(blob)
                &&& r->Ok_0@ == (RefreshIndexesView {
                    at: old(self)@.blobs.len() as int,
                    operation: refresh_start(),
                })
                &&& r->Ok_0@.valid(final(self)@)
            },
            old(self)@.valid() ==> final(self)@.valid(),
    {
        if blob.vault_id != self.vault_id {
            return Err(VaultError::InvalidConfig);
        }
        let at: usize = self.blobs.len();
        let operation = blob.refresh_committed_snapshot();
        self.blobs.push(blob);
        assert(self@ =~= (VaultView { blobs: old(self)@.blobs.push(blob@), ..old(self)@ }));
        Ok(AttachBlob { at, operation })
    }
}

/// Reads the index of a blob that was changed by someone else.
pub struct RefreshBlob {
    pub at: usize,
    pub operation: ReadIndex,
}

/// What a [`RefreshBlob`] is about: the blob whose index is being read.
#[verifier::ext_equal]
pub struct RefreshBlobView {
    pub at: int,
    pub operation: ReadIndexView,
}

impl View for RefreshBlob {
    type V = RefreshBlobView;

    open spec fn view(&self) -> RefreshBlobView {
        RefreshBlobView { at: self.at as int, operation: self.operation@ }
    }
}

impl RefreshBlobView {
    /// The blob is one of the vault.
    pub open spec fn valid(self, v: VaultView) -> bool {
        0 <= self.at < v.blobs.len() && self.operation.valid()
    }

    /// What is decided on a reply, and what the vault is then.
    pub open spec fn on_reply(self, v: VaultView, reply: Reply) -> (
        StepView<RefreshBlobView, IndexView>,
        VaultView,
    ) {
        match self.operation.on_reply(v.blobs[self.at], reply) {
            StepView::Ask(operation) => (
                StepView::Ask(RefreshBlobView { at: self.at, operation }),
                v,
            ),
            StepView::Done(Err(error)) => (StepView::Done(Err(error)), v),
            StepView::Done(Ok(index)) => (
                StepView::Done(Ok(index)),
                v.with_blob_index(self.at, index),
            ),
        }
    }
}

impl RefreshBlob {
    /// What to ask, and of which blob's file.
    pub fn request(&self, vault: &Vault) -> (r: (usize, Request))
        requires
            self@.valid(vault@),
        ensures
            r.0 == self@.at,
            r.1@ == self@.operation.asks(),
    {
        (self.at, self.operation.request())
    }

    /// Takes the reply to what was asked. What comes out at the end is the blob's index, for those
    /// who asked to be told of it.
    pub fn reply(self, vault: &mut Vault, reply: Reply) -> (r: Step<RefreshBlob, BlobIndex>)
        requires
            self@.valid(old(vault)@),
            answers(self@.operation.asks(), reply),
        ensures
            (r@, final(vault)@) == self@.on_reply(old(vault)@, reply),
            r is Ask ==> r->Ask_0@.valid(final(vault)@),
            old(vault)@.valid() ==> final(vault)@.valid(),
            final(vault).blobs == old(vault).blobs,
    {
        let at = self.at;
        match self.operation.reply(&vault.blobs[at], reply) {
            Step::Ask(operation) => Step::Ask(RefreshBlob { at, operation }),
            Step::Done(Err(error)) => Step::Done(Err(error)),
            Step::Done(Ok(index)) => {
                vault.store_index(at, &index);
                Step::Done(Ok(index))
            },
        }
    }
}

impl Vault {
    /// External watchers call this when one blob changes: it starts reading that blob's index
    /// again.
    pub fn handle_blob_changed(&self, blob_id: BlobId) -> (r: Result<RefreshBlob, VaultError>)
        ensures
            match position_of(self@.blobs, blob_id@, 0) {
                None => r == Err::<RefreshBlob, VaultError>(VaultError::BlobNotFound),
                Some(at) => {
                    &&& r is Ok
                    &&& r->Ok_0@ == (RefreshBlobView {
                        at,
                        operation: ReadIndexView {
                            retries: self@.blobs[at].config.reader_retry_budget,
                            locator: None,
                        },
                    })
                    &&& r->Ok_0@.valid(self@)
                },
            },
    {
        match self.blob_position(blob_id) {
            Ok(at) => Ok(RefreshBlob { at, operation: self.blobs[at].read_index() }),
            Err(error) => Err(error),
        }
    }
}

/// Measures the files of all blobs.
pub struct MeasureVault {
    pub at: usize,
    pub operation: MeasureLayout,
    pub out: Vec<(BlobId, BlobLayoutStats)>,
}

/// What a [`MeasureVault`] is about: the blob whose file is being measured, and what was found.
#[verifier::ext_equal]
pub struct MeasureVaultView {
    pub at: int,
    pub operation: MeasureView,
    pub out: Seq<(BlobId, BlobLayoutStats)>,
}

impl View for MeasureVault {
    type V = MeasureVaultView;

    open spec fn view(&self) -> MeasureVaultView {
        MeasureVaultView { at: self.at as int, operation: self.operation@, out: self.out@ }
    }
}

impl MeasureVaultView {
    /// The blob is one of the vault.
    pub open spec fn valid(self, v: VaultView) -> bool {
        0 <= self.at < v.blobs.len() && self.operation.valid()
    }

    /// What is decided on a reply.
    pub open spec fn on_reply(self, vault: Vault, reply: Reply) -> StepView<
        MeasureVaultView,
        Seq<(BlobId, BlobLayoutStats)>,
    > {
        match self.operation.on_reply(vault@.blobs[self.at], reply) {
            StepView::Ask(operation) => StepView::Ask(
                MeasureVaultView { at: self.at, operation, out: self.out },
            ),
            StepView::Done(Err(error)) => StepView::Done(Err(error)),
            StepView::Done(Ok(stats)) => {
                let out = self.out.push((vault.blobs@[self.at].blob_id, stats));
                if self.at + 1 < vault.blobs@.len() {
                    StepView::Ask(
                        MeasureVaultView { at: self.at + 1, operation: MeasureView::Slots, out },
                    )
                } else {
                    StepView::Done(Ok(out))
                }
            },
        }
    }

    /// On files that answer as they should, a step ends with what is expected after `n` more
    /// requests at most, or with an I/O error where nothing is expected.
    pub open spec fn settles(
        step: StepView<MeasureVaultView, Seq<(BlobId, BlobLayoutStats)>>,
        vault: Vault,
        images: Seq<Seq<u8>>,
        expected: Option<Result<Seq<(BlobId, BlobLayoutStats)>, VaultError>>,
        n: nat,
    ) -> bool
        decreases n,
    {
        match step {
            StepView::Done(result) => match expected {
                Some(outcome) => result == outcome,
                None => result is Err && result->Err_0 is Io,
            },
            StepView::Ask(operation) => n > 0 && forall|reply: Reply| #[trigger]
                honest(images[operation.at], operation.operation.asks(), reply)
                    ==> MeasureVaultView::settles(
                    operation.on_reply(vault, reply),
                    vault,
                    images,
                    expected,
                    (n - 1) as nat,
                ),
        }
    }
}

/// The layouts of the blobs' files from blob `at` on, behind those in `out`. The first file that
/// cannot be measured decides; there is no layout, but an I/O error, where it is too short for what
/// has to be read.
pub open spec fn layouts_in(
    vault: Vault,
    images: Seq<Seq<u8>>,
    at: int,
    out: Seq<(BlobId, BlobLayoutStats)>,
) -> Option<Result<Seq<(BlobId, BlobLayoutStats)>, VaultError>>
    decreases vault.blobs@.len() - at,
{
    if at >= vault.blobs@.len() {
        Some(Ok(out))
    } else {
        match layout_in(vault.blobs@[at]@, images[at]) {
            None => None,
            Some(Err(error)) => Some(Err(error)),
            Some(Ok(stats)) => layouts_in(
                vault,
                images,
                at + 1,
                out.push((vault.blobs@[at].blob_id, stats)),
            ),
        }
    }
}

/// Where measuring one blob's file settles after `m` requests, measuring the rest of the vault does
/// after as many and three for each file behind it.
proof fn lemma_layouts_settle(
    vault: Vault,
    images: Seq<Seq<u8>>,
    operation: MeasureVaultView,
    m: nat,
)
    requires
        0 <= operation.at < vault.blobs@.len(),
        MeasureView::settles(
            StepView::Ask(operation.operation),
            vault.blobs@[operation.at]@,
            images[operation.at],
            layout_in(vault.blobs@[operation.at]@, images[operation.at]),
            m,
        ),
        forall|i: int|
            0 <= i < vault.blobs@.len() ==> MeasureView::settles(
                StepView::Ask(MeasureView::Slots),
                vault.blobs@[i]@,
                images[i],
                #[trigger] layout_in(vault.blobs@[i]@, images[i]),
                3,
            ),
    ensures
        MeasureVaultView::settles(
            StepView::Ask(operation),
            vault,
            images,
            layouts_in(vault, images, operation.at, operation.out),
            (m + 3 * (vault.blobs@.len() - operation.at - 1)) as nat,
        ),
    decreases vault.blobs@.len() - operation.at, m,
{
    let at = operation.at;
    let b = vault.blobs@[at]@;
    let count = vault.blobs@.len();
    let n = (m + 3 * (count - at - 1)) as nat;
    let expected = layouts_in(vault, images, at, operation.out);
    assert(vault@.blobs[at] == b);
    assert forall|reply: Reply| #[trigger]
        honest(images[at], operation.operation.asks(), reply) implies MeasureVaultView::settles(
        operation.on_reply(vault, reply),
        vault,
        images,
        expected,
        (n - 1) as nat,
    ) by {
        let step = operation.operation.on_reply(b, reply);
        assert(MeasureView::settles(
            step,
            b,
            images[at],
            layout_in(b, images[at]),
            (m - 1) as nat,
        ));
        match step {
            StepView::Ask(next) => {
                let later = MeasureVaultView { at, operation: next, out: operation.out };
                lemma_layouts_settle(vault, images, later, (m - 1) as nat);
                assert((m - 1) + 3 * (count - at - 1) == n - 1);
            },
            StepView::Done(Ok(stats)) => {
                let out = operation.out.push((vault.blobs@[at].blob_id, stats));
                assert(expected == layouts_in(vault, images, at + 1, out));
                if at + 1 < count {
                    let next = MeasureVaultView { at: at + 1, operation: MeasureView::Slots, out };
                    assert(MeasureView::settles(
                        StepView::Ask(MeasureView::Slots),
                        vault.blobs@[at + 1]@,
                        images[at + 1],
                        layout_in(vault.blobs@[at + 1]@, images[at + 1]),
                        3,
                    ));
                    lemma_layouts_settle(vault, images, next, 3);
                    lemma_settles_later(
                        StepView::Ask(next),
                        vault,
                        images,
                        expected,
                        (3 + 3 * (count - at - 2)) as nat,
                        (n - 1) as nat,
                    );
                }
            },
            StepView::Done(Err(_)) => {},
        }
    }
}

/// What settles after a number of requests does so after any greater number.
proof fn lemma_settles_later(
    step: StepView<MeasureVaultView, Seq<(BlobId, BlobLayoutStats)>>,
    vault: Vault,
    images: Seq<Seq<u8>>,
    expected: Option<Result<Seq<(BlobId, BlobLayoutStats)>, VaultError>>,
    n: nat,
    later: nat,
)
    requires
        n <= later,
        MeasureVaultView::settles(step, vault, images, expected, n),
    ensures
        MeasureVaultView::settles(step, vault, images, expected, later),
    decreases n,
{
    if let StepView::Ask(operation) = step {
        assert forall|reply: Reply| #[trigger]
            honest(
                images[operation.at],
                operation.operation.asks(),
                reply,
            ) implies MeasureVaultView::settles(
            operation.on_reply(vault, reply),
            vault,
            images,
            expected,
            (later - 1) as nat,
        ) by {
            lemma_settles_later(
                operation.on_reply(vault, reply),
                vault,
                images,
                expected,
                (n - 1) as nat,
                (later - 1) as nat,
            );
        }
    }
}

impl MeasureVault {
    /// What to ask, and of which blob's file.
    pub fn request(&self, vault: &Vault) -> (r: (usize, Request))
        requires
            self@.valid(vault@),
        ensures
            r.0 == self@.at,
            r.1@ == self@.operation.asks(),
    {
        (self.at, self.operation.request())
    }

    /// Takes the reply to what was asked.
    pub fn reply(self, vault: &Vault, reply: Reply) -> (r: Step<
        MeasureVault,
        Vec<(BlobId, BlobLayoutStats)>,
    >)
        requires
            self@.valid(vault@),
            answers(self@.operation.asks(), reply),
        ensures
            r@ == self@.on_reply(*vault, reply),
            r is Ask ==> r->Ask_0@.valid(vault@),
    {
        let MeasureVault { at, operation, out } = self;
        let mut out = out;
        match operation.reply(&vault.blobs[at], reply) {
            Step::Ask(operation) => Step::Ask(MeasureVault { at, operation, out }),
            Step::Done(Err(error)) => Step::Done(Err(error)),
            Step::Done(Ok(stats)) => {
                out.push((vault.blobs[at].blob_id, stats));
                let count: usize = vault.blobs.len();
                if at + 1 < count {
                    let operation = vault.blobs[at + 1].layout_stats();
                    Step::Ask(MeasureVault { at: at + 1, operation, out })
                } else {
                    Step::Done(Ok(out))
                }
            },
        }
    }
}

impl Vault {
    /// Starts measuring the files of all blobs.
    pub fn layout_stats(&self) -> (r: MeasureVault)
        requires
            self@.blobs.len() > 0,
        ensures
            r@ == (MeasureVaultView {
                at: 0,
                operation: MeasureView::Slots,
                out: Seq::empty(),
            }),
            r@.valid(self@),
            forall|images: Seq<Seq<u8>>|
                MeasureVaultView::settles(
                    StepView::Ask(r@),
                    *self,
                    images,
                    #[trigger] layouts_in(*self, images, 0, Seq::empty()),
                    3 * self.blobs@.len(),
                ),
    {
        let measure = MeasureVault {
            at: 0,
            operation: self.blobs[0].layout_stats(),
            out: Vec::new(),
        };
        assert(measure.out@ =~= Seq::empty());
        proof {
            assert forall|images: Seq<Seq<u8>>|
                MeasureVaultView::settles(
                    StepView::Ask(measure@),
                    *self,
                    images,
                    #[trigger] layouts_in(*self, images, 0, Seq::empty()),
                    3 * self.blobs@.len(),
                ) by {
                assert forall|i: int| 0 <= i < self.blobs@.len() implies MeasureView::settles(
                    StepView::Ask(MeasureView::Slots),
                    self.blobs@[i]@,
                    images[i],
                    #[trigger] layout_in(self.blobs@[i]@, images[i]),
                    3,
                ) by {
                    lemma_layout_settles(self.blobs@[i]@, images[i]);
                }
                lemma_layouts_settle(*self, images, measure@, 3);
                assert(3 + 3 * (self.blobs@.len() - 1) == 3 * self.blobs@.len());
            }
        }
        measure
    }
}

} // verus!
