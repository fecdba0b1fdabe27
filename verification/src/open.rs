//! Opening a blob file, as an operation: an existing file is read, anything else is made into a
//! new blob.

use vstd::prelude::*;

use crate::blob::{
    config_valid, validate_config, Blob, BlobConfig, BlobView, FRONT_MATTER_LEN, STABLE_SLOT_LEN,
};
use crate::create::{create_refusal, create_script, opened, CreatedParts};
use crate::commit::run_writes;
use crate::error::VaultError;
use crate::storage::{
    after, after_all, answers, honest, request_views, Reply, Request, RequestView, Step,
};
use crate::types::{VaultId, VaultMasterKey};
use crate::write::{copy_request, lemma_run_is_writes, Play};

verus! {

/// Opens a blob, or makes one.
pub struct OpenBlob {
    pub vault_id: VaultId,
    pub master_key: VaultMasterKey,
    pub config: BlobConfig,
    pub stage: OpenStage,
}

/// How far an [`OpenBlob`] is.
pub enum OpenStage {
    Stable,
    Lock,
    Play(Play<Blob>),
}

impl OpenBlob {
    /// The same opening at another stage.
    pub open spec fn continues(self, other: OpenBlob) -> bool {
        self.vault_id == other.vault_id && self.master_key == other.master_key && self.config
            == other.config
    }

    /// The stage holds what its name says.
    pub open spec fn valid(self) -> bool {
        match self.stage {
            OpenStage::Stable => true,
            OpenStage::Lock => true,
            OpenStage::Play(play) => {
                &&& play.next < play.requests@.len()
                &&& play.result@.vault_id == self.vault_id@
                &&& play.result@.config == self.config
                &&& create_refusal(self.config) is None
                &&& play.result@.created_by(self.master_key@, request_views(play.requests@))
                &&& forall|i: int|
                    0 <= i < play.requests@.len() ==> (#[trigger] play.requests@[i]@ is Write)
                        || play.requests@[i]@ is Sync || play.requests@[i]@ is Truncate
            },
        }
    }

    /// What is asked for.
    pub open spec fn asks(self) -> RequestView {
        match self.stage {
            OpenStage::Stable => RequestView::Read { offset: 0, length: STABLE_SLOT_LEN },
            OpenStage::Lock => RequestView::Lock,
            OpenStage::Play(play) => play.requests@[play.next as int]@,
        }
    }

    /// What may come of a reply.
    pub open spec fn on_reply(self, reply: Reply, r: Step<OpenBlob, Blob>) -> bool {
        match (self.stage, reply) {
            (_, Reply::Failed(error)) => r == Step::<OpenBlob, Blob>::Done(
                Err(VaultError::Io(error)),
            ),
            (OpenStage::Stable, Reply::Bytes(slot)) => match opened(
                slot@,
                self.vault_id@,
                self.master_key@,
                self.config,
            ) {
                Err(error) => r == Step::<OpenBlob, Blob>::Done(Err(error)),
                Ok(b) => r matches Step::Done(Ok(blob)) && blob@ == b,
            },
            (OpenStage::Lock, Reply::Done) => match create_refusal(self.config) {
                Some(error) => r == Step::<OpenBlob, Blob>::Done(Err(error)),
                None => {
                    &&& r matches Step::Ask(next)
                    &&& next.continues(self)
                    &&& next.stage matches OpenStage::Play(play)
                    &&& play.next == 0
                },
            },
            (OpenStage::Play(play), Reply::Done) => if play.next + 1 < play.requests@.len() {
                &&& r matches Step::Ask(next)
                &&& next.continues(self)
                &&& next.stage matches OpenStage::Play(later)
                &&& later.requests == play.requests
                &&& later.next == play.next + 1
                &&& later.result == play.result
            } else {
                r == Step::<OpenBlob, Blob>::Done(Ok(play.result))
            },
            _ => true,
        }
    }
}

impl OpenBlob {
    /// What to ask.
    pub fn request(&self) -> (r: Request)
        requires
            self.valid(),
        ensures
            r@ == self.asks(),
    {
        match &self.stage {
            OpenStage::Stable => Request::Read { offset: 0, length: STABLE_SLOT_LEN },
            OpenStage::Lock => Request::Lock,
            OpenStage::Play(play) => copy_request(&play.requests[play.next]),
        }
    }

    /// Takes the reply to what was asked.
    pub fn reply(self, reply: Reply) -> (r: Step<OpenBlob, Blob>)
        requires
            self.valid(),
            answers(self.asks(), reply),
        ensures
            self.on_reply(reply, r),
            r is Ask ==> r->Ask_0.valid(),
    {
        let OpenBlob { vault_id, master_key, config, stage } = self;
        match (stage, reply) {
            (_, Reply::Failed(error)) => Step::Done(Err(VaultError::Io(error))),
            (OpenStage::Stable, Reply::Bytes(slot)) => Step::Done(
                Blob::from_existing(&slot, vault_id, &master_key, config),
            ),
            (OpenStage::Lock, Reply::Done) => match Blob::create_new(
                vault_id,
                &master_key,
                config,
            ) {
                Ok((blob, requests)) => {
                    proof {
                        let parts = choose|parts: CreatedParts| #[trigger]
                            blob@.creates(master_key@, parts) && request_views(requests@)
                                == create_script(parts);
                        let script = create_script(parts);
                        let run = run_writes(FRONT_MATTER_LEN as int, parts.fill);
                        lemma_run_is_writes(FRONT_MATTER_LEN as int, parts.fill);
                        assert(script.len() >= 5);
                        assert(request_views(requests@).len() == requests@.len());
                        assert forall|i: int| 0 <= i < requests@.len() implies (
                        #[trigger] requests@[i]@ is Write) || requests@[i]@ is Sync
                            || requests@[i]@ is Truncate by {
                            assert(request_views(requests@)[i] == script[i]);
                            if 4 <= i < 4 + run.len() {
                                assert(script[i] == run[i - 4]);
                            }
                        }
                    }
                    Step::Ask(
                        OpenBlob {
                            vault_id,
                            master_key,
                            config,
                            stage: OpenStage::Play(Play { requests, next: 0, result: blob }),
                        },
                    )
                },
                Err(error) => Step::Done(Err(error)),
            },
            (OpenStage::Play(play), Reply::Done) => {
                let Play { requests, next, result } = play;
                let total: usize = requests.len();
                if next + 1 < total {
                    Step::Ask(
                        OpenBlob {
                            vault_id,
                            master_key,
                            config,
                            stage: OpenStage::Play(Play { requests, next: next + 1, result }),
                        },
                    )
                } else {
                    Step::Done(Ok(result))
                }
            },
            _ => {
                assert(false);
                Step::Done(Err(VaultError::IndexChainBroken))
            },
        }
    }
}

/// What opening starts with: nothing at all is done where the configuration cannot work.
pub open spec fn starts(
    stable: bool,
    vault_id: VaultId,
    master_key: VaultMasterKey,
    config: BlobConfig,
    r: Step<OpenBlob, Blob>,
) -> bool {
    if !config_valid(config) {
        r == Step::<OpenBlob, Blob>::Done(Err(VaultError::IntegerOverflow))
    } else {
        let stage = if stable {
            OpenStage::Stable
        } else {
            OpenStage::Lock
        };
        r == Step::<OpenBlob, Blob>::Ask(OpenBlob { vault_id, master_key, config, stage })
    }
}

impl Blob {
    /// Starts opening a blob file that may not exist yet. A file that is too short to hold the
    /// front matter is made into a new blob.
    pub fn open(
        existed: bool,
        length: u64,
        vault_id: VaultId,
        master_key: &VaultMasterKey,
        config: BlobConfig,
    ) -> (r: Step<OpenBlob, Blob>)
        ensures
            starts(existed && length >= FRONT_MATTER_LEN, vault_id, *master_key, config, r),
            r is Ask ==> r->Ask_0.valid(),
    {
        match validate_config(&config) {
            Ok(()) => {},
            Err(error) => return Step::Done(Err(error)),
        }
        let stage = if existed && length >= FRONT_MATTER_LEN {
            OpenStage::Stable
        } else {
            OpenStage::Lock
        };
        Step::Ask(OpenBlob { vault_id, master_key: *master_key, config, stage })
    }

    /// Starts opening a blob file that exists.
    pub fn open_existing(vault_id: VaultId, master_key: &VaultMasterKey, config: BlobConfig) -> (r:
        Step<OpenBlob, Blob>)
        ensures
            starts(true, vault_id, *master_key, config, r),
            r is Ask ==> r->Ask_0.valid(),
    {
        match validate_config(&config) {
            Ok(()) => {},
            Err(error) => return Step::Done(Err(error)),
        }
        Step::Ask(
            OpenBlob { vault_id, master_key: *master_key, config, stage: OpenStage::Stable },
        )
    }
}

/// On a file that answers as it should, opening gives the blob that the stable slot describes.
pub proof fn law_existing_blob_is_opened(
    image: Seq<u8>,
    operation: OpenBlob,
    reply: Reply,
    step: Step<OpenBlob, Blob>,
    b: BlobView,
)
    requires
        image.len() >= FRONT_MATTER_LEN,
        operation.stage is Stable,
        honest(image, operation.asks(), reply),
        operation.on_reply(reply, step),
        opened(
            image.subrange(0, 2048),
            operation.vault_id@,
            operation.master_key@,
            operation.config,
        ) == Ok::<BlobView, VaultError>(b),
    ensures
        step matches Step::Done(Ok(blob)) && blob@ == b,
{
    assert(reply->Bytes_0@ =~= image.subrange(0, 2048));
}

impl OpenBlob {
    /// What the operation holds is true of the file: it was `base` when the operation started, and
    /// is `image` now.
    pub open spec fn tracks(self, base: Seq<u8>, image: Seq<u8>) -> bool {
        match self.stage {
            OpenStage::Stable => image == base,
            OpenStage::Lock => image == base,
            OpenStage::Play(play) => image == after_all(
                base,
                request_views(play.requests@).take(play.next as int),
            ),
        }
    }
}

/// Making a blob in a file that answers as it should carries out the whole creation: the file then
/// is what creating the reported blob writes, or is untouched where it was refused.
pub proof fn law_creation_is_carried_out(
    base: Seq<u8>,
    image: Seq<u8>,
    operation: OpenBlob,
    reply: Reply,
    step: Step<OpenBlob, Blob>,
)
    requires
        operation.valid(),
        !(operation.stage is Stable),
        operation.tracks(base, image),
        honest(image, operation.asks(), reply),
        operation.on_reply(reply, step),
    ensures
        ({
            let now = after(image, operation.asks());
            match step {
                Step::Ask(next) => next.tracks(base, now) && !(next.stage is Stable),
                Step::Done(Err(_)) => now == base,
                Step::Done(Ok(blob)) => {
                    &&& create_refusal(blob@.config) is None
                    &&& exists|parts: CreatedParts| #[trigger]
                        blob@.creates(operation.master_key@, parts) && now == after_all(
                            base,
                            create_script(parts),
                        )
                },
            }
        }),
{
    match operation.stage {
        OpenStage::Stable => {},
        OpenStage::Lock => {
            if step is Ask {
                let play = step->Ask_0.stage->Play_0;
                assert(request_views(play.requests@).take(0) =~= Seq::<RequestView>::empty());
                assert(after_all(base, Seq::<RequestView>::empty()) == base);
            }
        },
        OpenStage::Play(play) => {
            let script = request_views(play.requests@);
            let k = play.next as int;
            assert(script.take(k + 1).drop_last() =~= script.take(k));
            assert(script.take(k + 1).last() == operation.asks());
            assert(play.requests@[k]@ is Write || play.requests@[k]@ is Sync
                || play.requests@[k]@ is Truncate);
            if play.next + 1 >= play.requests@.len() {
                assert(script.take(k + 1) =~= script);
                let b = play.result@;
                let parts = choose|parts: CreatedParts| #[trigger]
                    b.creates(operation.master_key@, parts) && script == create_script(parts);
                assert(b.creates(operation.master_key@, parts));
            }
        },
    }
}

} // verus!
