//! What a vault knows of its blobs after their indexes were read.

use vstd::prelude::*;

use crate::blob::BlobView;
use crate::consistency::{index_bytes, slots_in};
use crate::contents::{lemma_blob_index_replaced, lemma_own_position, lemma_replaced_positions};
use crate::error::VaultError;
use crate::index::IndexView;
use crate::read::{ReadIndexView, RefreshView};
use crate::session::{on_attach_reply, RefreshBlobView, RefreshIndexesView};
use crate::storage::{honest, Reply, StepView};
use crate::vault::{empty_vault_index, VaultView};

verus! {

impl VaultView {
    /// The files are consistent, and what the vault knows of some of the blobs is what their files
    /// hold. It knows nothing of blobs that are not its own.
    pub open spec fn knows_of(self, images: Seq<Seq<u8>>, known: Set<int>) -> bool {
        &&& self.sound(images)
        &&& forall|i: int|
            0 <= i < self.blobs.len() && known.contains(i) ==> #[trigger] self.knows(i, images[i])
        &&& self.index.only_of(self.blobs)
    }
}

/// A vault that knows of all its blobs is consistent with its files, and the other way round.
pub proof fn law_knowing_all_is_consistency(v: VaultView, images: Seq<Seq<u8>>, known: Set<int>)
    requires
        forall|i: int| 0 <= i < v.blobs.len() ==> #[trigger] known.contains(i),
    ensures
        v.knows_of(images, known) <==> v.consistent(images),
{
    if v.knows_of(images, known) {
        assert forall|i: int| 0 <= i < v.blobs.len() implies #[trigger] v.knows(i, images[i]) by {
            assert(known.contains(i));
        }
    }
}

/// Learning what a blob's file holds keeps what is known of the others.
pub proof fn law_learning_adds(v: VaultView, images: Seq<Seq<u8>>, known: Set<int>, at: int)
    requires
        v.knows_of(images, known),
        0 <= at < v.blobs.len(),
    ensures
        v.with_blob_index(at, v.blobs[at].entries(images[at])).knows_of(images, known.insert(at)),
{
    let id = v.blobs[at].blob_id;
    let entries = v.blobs[at].entries(images[at]);
    let now = v.with_blob_index(at, entries);
    assert forall|i: int|
        0 <= i < now.blobs.len() && known.insert(at).contains(i) implies #[trigger] now.knows(
        i,
        images[i],
    ) by {
        let other = v.blobs[i].blob_id;
        lemma_blob_index_replaced(v.index, id, entries, other);
        if i != at {
            assert(v.knows(i, images[i]));
            if i < at {
                assert(v.blobs[i].blob_id != v.blobs[at].blob_id);
            } else {
                assert(v.blobs[at].blob_id != v.blobs[i].blob_id);
            }
        }
    }
    lemma_own_position(v.blobs, at, 0);
    lemma_replaced_positions(v.index, id, entries, v.blobs);
}

impl RefreshView {
    /// The locators are those of the file.
    pub open spec fn tracks(self, b: BlobView, image: Seq<u8>) -> bool {
        self.locators.len() == 0 || self.locators == b.locators(slots_in(image))
    }
}

/// On a consistent file that answers as it should, looking for the newest index that is whole leads
/// on or ends with the entries that are in force.
pub proof fn law_newest_index_is_found(
    operation: RefreshView,
    b: BlobView,
    image: Seq<u8>,
    reply: Reply,
)
    requires
        b.consistent(image),
        operation.tracks(b, image),
        b.active(image).index_length <= usize::MAX,
        honest(image, operation.asks(), reply),
    ensures
        match operation.on_reply(b, reply) {
            StepView::Ask(next) => next.tracks(b, image) && next.locators.len() > 0,
            StepView::Done(result) => result == Ok::<IndexView, VaultError>(b.entries(image)),
        },
{
    let locator = b.active(image);
    if operation.locators.len() == 0 {
        assert(reply->Bytes_0@ =~= slots_in(image));
        if locator.index_length == 0 {
            assert(index_bytes(locator, image) =~= Seq::empty());
        }
    } else {
        assert(reply->Bytes_0@ =~= index_bytes(locator, image));
    }
}

/// Reading the indexes of all blobs learns one after the other, and at the end the vault knows of
/// all of them.
pub proof fn law_refreshing_learns(
    operation: RefreshIndexesView,
    v: VaultView,
    images: Seq<Seq<u8>>,
    known: Set<int>,
    reply: Reply,
)
    requires
        v.knows_of(images, known),
        operation.valid(v),
        operation.operation.tracks(v.blobs[operation.at], images[operation.at]),
        forall|i: int| 0 <= i < operation.at ==> #[trigger] known.contains(i),
        v.blobs[operation.at].active(images[operation.at]).index_length <= usize::MAX,
        honest(images[operation.at], operation.operation.asks(), reply),
    ensures
        ({
            let (step, now) = operation.on_reply(v, reply);
            match step {
                StepView::Ask(next) => {
                    &&& next.operation.tracks(v.blobs[next.at], images[next.at])
                    &&& next.at == operation.at ==> now == v
                    &&& next.at != operation.at ==> next.at == operation.at + 1 && now.knows_of(
                        images,
                        known.insert(operation.at),
                    )
                },
                StepView::Done(result) => result == Ok::<(), VaultError>(()) && now.consistent(
                    images,
                ),
            }
        }),
{
    let b = v.blobs[operation.at];
    let image = images[operation.at];
    law_newest_index_is_found(operation.operation, b, image, reply);
    if operation.operation.on_reply(b, reply) is Done {
        law_learning_adds(v, images, known, operation.at);
        let all = known.insert(operation.at);
        let now = v.with_blob_index(operation.at, b.entries(image));
        if operation.at + 1 >= v.blobs.len() {
            assert forall|i: int| 0 <= i < now.blobs.len() implies #[trigger] all.contains(i) by {
                if i < operation.at {
                    assert(known.contains(i));
                }
            }
            law_knowing_all_is_consistency(now, images, all);
        }
    }
}

/// A vault that knows nothing is on its way to knowing all.
pub proof fn law_refresh_starts(v: VaultView, images: Seq<Seq<u8>>)
    requires
        v.sound(images),
        v.index == empty_vault_index(),
    ensures
        v.knows_of(images, Set::empty()),
{
}

/// Attaching a blob to a vault that knows of the others ends with the vault knowing of all.
pub proof fn law_attaching_learns(
    operation: RefreshIndexesView,
    v: VaultView,
    images: Seq<Seq<u8>>,
    known: Set<int>,
    reply: Reply,
)
    requires
        v.knows_of(images, known),
        operation.valid(v),
        operation.operation.tracks(v.blobs[operation.at], images[operation.at]),
        forall|i: int|
            0 <= i < v.blobs.len() && i != operation.at ==> #[trigger] known.contains(i),
        v.blobs[operation.at].active(images[operation.at]).index_length <= usize::MAX,
        honest(images[operation.at], operation.operation.asks(), reply),
    ensures
        ({
            let (step, now) = on_attach_reply(operation, v, reply);
            match step {
                StepView::Ask(next) => {
                    &&& next.at == operation.at
                    &&& next.operation.tracks(v.blobs[next.at], images[next.at])
                    &&& now == v
                },
                StepView::Done(result) => {
                    let b = v.blobs[operation.at];
                    &&& result == Ok::<(), VaultError>(())
                    &&& now == v.with_blob_index(
                        operation.at,
                        b.entries(images[operation.at]),
                    )
                    &&& now.consistent(images)
                },
            }
        }),
{
    let b = v.blobs[operation.at];
    let image = images[operation.at];
    law_newest_index_is_found(operation.operation, b, image, reply);
    if operation.operation.on_reply(b, reply) is Done {
        law_learning_adds(v, images, known, operation.at);
        law_knowing_all_is_consistency(
            v.with_blob_index(operation.at, b.entries(image)),
            images,
            known.insert(operation.at),
        );
    }
}

impl ReadIndexView {
    /// The locator is the one that is in force.
    pub open spec fn tracks(self, b: BlobView, image: Seq<u8>) -> bool {
        self.locator is None || self.locator == Some(b.active(image))
    }
}

/// Where someone else has changed a blob's file and left it consistent, reading its index again
/// makes the vault consistent with its files again, and hands out what was read.
pub proof fn law_watching_learns(
    operation: RefreshBlobView,
    v: VaultView,
    images: Seq<Seq<u8>>,
    known: Set<int>,
    reply: Reply,
)
    requires
        v.knows_of(images, known),
        operation.valid(v),
        operation.operation.tracks(v.blobs[operation.at], images[operation.at]),
        forall|i: int|
            0 <= i < v.blobs.len() && i != operation.at ==> #[trigger] known.contains(i),
        v.blobs[operation.at].active(images[operation.at]).index_length <= usize::MAX,
        honest(images[operation.at], operation.operation.asks(), reply),
    ensures
        ({
            let (step, now) = operation.on_reply(v, reply);
            let entries = v.blobs[operation.at].entries(images[operation.at]);
            match step {
                StepView::Ask(next) => {
                    &&& next.at == operation.at
                    &&& next.operation.tracks(v.blobs[next.at], images[next.at])
                    &&& next.operation.locator is Some
                    &&& now == v
                },
                StepView::Done(result) => result == Ok::<IndexView, VaultError>(entries)
                    && now.consistent(images),
            }
        }),
{
    let b = v.blobs[operation.at];
    let image = images[operation.at];
    let locator = b.active(image);
    assert(b.consistent(image));
    if operation.operation.locator is None {
        assert(reply->Bytes_0@ =~= slots_in(image));
        if locator.index_length == 0 {
            assert(index_bytes(locator, image) =~= Seq::empty());
        }
    } else {
        assert(reply->Bytes_0@ =~= index_bytes(locator, image));
    }
    if operation.operation.on_reply(b, reply) is Done {
        law_learning_adds(v, images, known, operation.at);
        law_knowing_all_is_consistency(
            v.with_blob_index(operation.at, b.entries(image)),
            images,
            known.insert(operation.at),
        );
    }
}

} // verus!
