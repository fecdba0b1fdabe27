//! What is made of what the indexes say.

use vstd::prelude::*;

use crate::blob::{BlobView, LocatorView};
use crate::consistency::slots_in;
use crate::error::VaultError;
use crate::files::{
    by_number, has_number, latest, lemma_by_number, lemma_covering_is_numbered, numbered, total_len,
};
use crate::index::IndexView;
use crate::read::{lemma_snapshot_settles, newest_whole, ReadIndexView, RefreshView};
use crate::session::position_of;
use crate::storage::{Reply, RequestView, StepView};
use crate::vault::{LocatedChunk, LocatedComplete, VaultIndexView};

verus! {

/// How many of the chunks belong to the file.
pub open spec fn how_many(chunks: Seq<LocatedChunk>, file_id: Seq<u8>) -> nat
    decreases chunks.len(),
{
    if chunks.len() == 0 {
        0
    } else {
        how_many(chunks.drop_last(), file_id) + if chunks.last().entry.file_id == file_id {
            1nat
        } else {
            0nat
        }
    }
}

/// Some known chunk of the file has the place.
pub open spec fn known_at(chunks: Seq<LocatedChunk>, file_id: Seq<u8>, number: int) -> bool {
    exists|k: int|
        0 <= k < chunks.len() && (#[trigger] chunks[k]).entry.file_id == file_id
            && chunks[k].entry.sequence_number == number
}

/// A chunk of the file is known.
pub open spec fn known(chunks: Seq<LocatedChunk>, file_id: Seq<u8>) -> bool {
    exists|k: int| 0 <= k < chunks.len() && (#[trigger] chunks[k]).entry.file_id == file_id
}

spec fn of_file(chunks: Seq<LocatedChunk>, file_id: Seq<u8>) -> Seq<LocatedChunk> {
    chunks.filter(|c: LocatedChunk| c.entry.file_id == file_id)
}

proof fn lemma_of_file(chunks: Seq<LocatedChunk>, file_id: Seq<u8>)
    ensures
        of_file(chunks, file_id).len() == how_many(chunks, file_id),
        forall|x: LocatedChunk| #[trigger]
            of_file(chunks, file_id).contains(x) <==> (chunks.contains(x) && x.entry.file_id
                == file_id),
        known(chunks, file_id) <==> how_many(chunks, file_id) > 0,
    decreases chunks.len(),
{
    reveal(Seq::filter);
    let kept = of_file(chunks, file_id);
    if chunks.len() > 0 {
        let front = chunks.drop_last();
        lemma_of_file(front, file_id);
        let front_kept = of_file(front, file_id);
        let last = chunks.last();
        assert(chunks =~= front.push(last));
        assert forall|x: LocatedChunk| #[trigger] kept.contains(x) <==> (chunks.contains(x)
            && x.entry.file_id == file_id) by {
            if chunks.contains(x) && x.entry.file_id == file_id {
                let k = choose|k: int| 0 <= k < chunks.len() && chunks[k] == x;
                if k < front.len() {
                    assert(front[k] == x);
                    assert(front.contains(x));
                    assert(front_kept.contains(x));
                    let j = choose|j: int| 0 <= j < front_kept.len() && front_kept[j] == x;
                    assert(kept[j] == x);
                } else {
                    assert(kept[kept.len() - 1] == x);
                }
            }
            if kept.contains(x) {
                let j = choose|j: int| 0 <= j < kept.len() && kept[j] == x;
                if j < front_kept.len() {
                    assert(front_kept[j] == x);
                    assert(front_kept.contains(x));
                    assert(front.contains(x));
                    let k = choose|k: int| 0 <= k < front.len() && front[k] == x;
                    assert(chunks[k] == x);
                } else {
                    assert(chunks[chunks.len() - 1] == x);
                }
            }
        }
        if known(front, file_id) {
            let k = choose|k: int|
                0 <= k < front.len() && (#[trigger] front[k]).entry.file_id == file_id;
            assert(chunks[k].entry.file_id == file_id);
        }
        if known(chunks, file_id) && how_many(chunks, file_id) == 0 {
            let k = choose|k: int|
                0 <= k < chunks.len() && (#[trigger] chunks[k]).entry.file_id == file_id;
            assert(k < front.len());
            assert(front[k].entry.file_id == file_id);
        }
        if last.entry.file_id == file_id {
            assert(chunks[chunks.len() - 1].entry.file_id == file_id);
        }
    }
}

/// A chunk of a file is known exactly where the file has chunks.
pub proof fn lemma_of_file_is_known(index: VaultIndexView, file_id: Seq<u8>)
    ensures
        known(index.chunks, file_id) <==> index.file_chunks(file_id).len() > 0,
{
    lemma_of_file(index.chunks, file_id);
    assert(index.file_chunks(file_id) == of_file(index.chunks, file_id));
}

/// The chunks of a file are put in order exactly where one is known for every place below their
/// number. They are then all the known chunks of the file, each at its place. A file of which no
/// chunk is known is not found, and any other is incomplete.
pub proof fn law_file_is_put_in_order(index: VaultIndexView, file_id: Seq<u8>)
    ensures
        ({
            let n = how_many(index.chunks, file_id);
            let whole = forall|v: int| 0 <= v < n ==> #[trigger] known_at(index.chunks, file_id, v);
            match index.ordered(file_id) {
                Ok(list) => {
                    &&& n > 0
                    &&& whole
                    &&& list.len() == n
                    &&& forall|i: int|
                        0 <= i < n ==> (#[trigger] list[i]).entry.sequence_number == i
                            && list[i].entry.file_id == file_id && index.chunks.contains(list[i])
                    &&& forall|x: LocatedChunk| #[trigger]
                        index.chunks.contains(x) && x.entry.file_id == file_id ==> list.contains(x)
                },
                Err(error) => if known(index.chunks, file_id) {
                    !whole && error == VaultError::IncompleteFile
                } else {
                    error == VaultError::FileNotFound
                },
            }
        }),
{
    let mine = index.file_chunks(file_id);
    assert(mine == of_file(index.chunks, file_id));
    let list = by_number(mine);
    lemma_of_file(index.chunks, file_id);
    lemma_by_number(mine);
    let n = how_many(index.chunks, file_id);
    assert forall|i: int| 0 <= i < n implies (#[trigger] list[i]).entry.file_id == file_id
        && index.chunks.contains(list[i]) by {
        assert(list.contains(list[i]));
        assert(mine.contains(list[i]));
    }
    assert forall|x: LocatedChunk| #[trigger]
        index.chunks.contains(x) && x.entry.file_id == file_id implies list.contains(x) by {
        assert(mine.contains(x));
    }
    if numbered(list) {
        assert forall|v: int| 0 <= v < n implies #[trigger] known_at(index.chunks, file_id, v) by {
            assert(list[v].entry.sequence_number == v);
            assert(index.chunks.contains(list[v]));
            let k = choose|k: int| 0 <= k < index.chunks.len() && index.chunks[k] == list[v];
            assert(index.chunks[k].entry.file_id == file_id);
        }
    }
    if forall|v: int| 0 <= v < n ==> #[trigger] known_at(index.chunks, file_id, v) {
        assert forall|v: int| 0 <= v < mine.len() implies #[trigger] has_number(mine, v) by {
            assert(known_at(index.chunks, file_id, v));
            let k = choose|k: int|
                0 <= k < index.chunks.len() && (#[trigger] index.chunks[k]).entry.file_id
                    == file_id && index.chunks[k].entry.sequence_number == v;
            assert(index.chunks.contains(index.chunks[k]));
            assert(mine.contains(index.chunks[k]));
        }
        lemma_covering_is_numbered(mine);
    }
}

/// The bytes of the chunks from a place on.
pub open spec fn bytes_from(chunks: Seq<LocatedChunk>, from: int) -> int
    decreases chunks.len() - from,
{
    if from < 0 || from >= chunks.len() {
        0
    } else {
        chunks[from].entry.plaintext_length + bytes_from(chunks, from + 1)
    }
}

proof fn lemma_bytes_split(chunks: Seq<LocatedChunk>, from: int)
    requires
        chunks.len() > 0,
        0 <= from < chunks.len(),
    ensures
        bytes_from(chunks, from) == bytes_from(chunks.drop_last(), from)
            + chunks.last().entry.plaintext_length,
    decreases chunks.len() - from,
{
    if from + 1 < chunks.len() {
        lemma_bytes_split(chunks, from + 1);
        assert(chunks.drop_last()[from] == chunks[from]);
    } else {
        assert(bytes_from(chunks, from + 1) == 0);
    }
}

pub proof fn lemma_bytes(chunks: Seq<LocatedChunk>)
    ensures
        total_len(chunks) == bytes_from(chunks, 0),
        bytes_from(chunks, 0) >= 0,
    decreases chunks.len(),
{
    if chunks.len() > 0 {
        lemma_bytes(chunks.drop_last());
        lemma_bytes_split(chunks, 0);
    }
}

/// A file is as long as its chunks together, where they can be put in order.
pub proof fn law_file_is_as_long_as_its_chunks(index: VaultIndexView, file_id: Seq<u8>)
    ensures
        match index.ordered(file_id) {
            Ok(list) => if bytes_from(list, 0) <= u64::MAX {
                index.size(file_id) is Ok && index.size(file_id)->Ok_0 == bytes_from(list, 0)
            } else {
                index.size(file_id) == Err::<u64, VaultError>(VaultError::IntegerOverflow)
            },
            Err(error) => index.size(file_id) == Err::<u64, VaultError>(error),
        },
{
    match index.ordered(file_id) {
        Ok(list) => lemma_bytes(list),
        Err(_) => {},
    }
}

/// The marker at the place is one of the file that counts the most chunks, and the last such.
pub open spec fn counts_most(markers: Seq<LocatedComplete>, file_id: Seq<u8>, at: int) -> bool {
    &&& 0 <= at < markers.len()
    &&& markers[at].entry.file_id == file_id
    &&& forall|j: int|
        0 <= j < markers.len() && (#[trigger] markers[j]).entry.file_id == file_id ==> (
        markers[j].entry.total_chunks <= markers[at].entry.total_chunks && (j > at
            ==> markers[j].entry.total_chunks < markers[at].entry.total_chunks))
}

proof fn lemma_latest(markers: Seq<LocatedComplete>, file_id: Seq<u8>)
    ensures
        match latest(markers.filter(|c: LocatedComplete| c.entry.file_id == file_id)) {
            Some(marker) => exists|at: int| #[trigger]
                counts_most(markers, file_id, at) && markers[at] == marker,
            None => forall|j: int|
                0 <= j < markers.len() ==> (#[trigger] markers[j]).entry.file_id != file_id,
        },
    decreases markers.len(),
{
    reveal(Seq::filter);
    let keep = |c: LocatedComplete| c.entry.file_id == file_id;
    if markers.len() > 0 {
        let front = markers.drop_last();
        let last = markers.len() - 1;
        lemma_latest(front, file_id);
        let before = front.filter(keep);
        assert(markers[last] == markers.last());
        if markers[last].entry.file_id == file_id {
            assert(markers.filter(keep) =~= before.push(markers[last]));
            assert(markers.filter(keep).drop_last() =~= before);
            match latest(before) {
                Some(best) => {
                    let at = choose|at: int| #[trigger]
                        counts_most(front, file_id, at) && front[at] == best;
                    assert(forall|j: int| 0 <= j < last ==> front[j] == markers[j]);
                    if markers[last].entry.total_chunks >= best.entry.total_chunks {
                        assert(counts_most(markers, file_id, last));
                    } else {
                        assert(counts_most(markers, file_id, at));
                    }
                },
                None => {
                    assert(forall|j: int| 0 <= j < last ==> front[j] == markers[j]);
                    assert(counts_most(markers, file_id, last));
                },
            }
        } else {
            assert(markers.filter(keep) =~= before);
            assert(forall|j: int| 0 <= j < last ==> front[j] == markers[j]);
            match latest(before) {
                Some(best) => {
                    let at = choose|at: int| #[trigger]
                        counts_most(front, file_id, at) && front[at] == best;
                    assert(counts_most(markers, file_id, at));
                },
                None => {},
            }
        }
    }
}

/// Of the known markers of a file the one counts that counts the most chunks, and the last of
/// those. There is none exactly where no marker of the file is known.
pub proof fn law_largest_marker_counts(index: VaultIndexView, file_id: Seq<u8>)
    ensures
        match index.latest_complete(file_id) {
            Some(marker) => exists|at: int| #[trigger]
                counts_most(index.completed_files, file_id, at) && index.completed_files[at]
                    == marker,
            None => forall|j: int|
                0 <= j < index.completed_files.len() ==> (
                #[trigger] index.completed_files[j]).entry.file_id != file_id,
        },
{
    lemma_latest(index.completed_files, file_id);
}

/// A file may be read as a whole exactly where chunks of it are known and the marker that counts
/// counts as many as are known.
pub proof fn law_marker_has_to_count_the_known_chunks(
    index: VaultIndexView,
    file_id: Seq<u8>,
    at: int,
)
    ensures
        !known(index.chunks, file_id) ==> index.incompleteness(file_id) == Some(
            VaultError::FileNotFound,
        ),
        known(index.chunks, file_id) && (forall|j: int|
            0 <= j < index.completed_files.len() ==> (
            #[trigger] index.completed_files[j]).entry.file_id != file_id)
            ==> index.incompleteness(file_id) == Some(VaultError::IncompleteFile),
        known(index.chunks, file_id) && counts_most(index.completed_files, file_id, at)
            ==> index.incompleteness(file_id) == if index.completed_files[at].entry.total_chunks
            == how_many(index.chunks, file_id) {
            None::<VaultError>
        } else {
            Some(VaultError::IncompleteFile)
        },
{
    lemma_of_file(index.chunks, file_id);
    lemma_latest(index.completed_files, file_id);
    let markers = index.completed_files;
    match index.latest_complete(file_id) {
        Some(marker) => {
            let it = choose|it: int| #[trigger]
                counts_most(markers, file_id, it) && markers[it] == marker;
            if counts_most(markers, file_id, at) {
                assert(markers[it].entry.file_id == file_id);
                assert(markers[at].entry.file_id == file_id);
                assert(it == at);
            }
        },
        None => {},
    }
}

/// How many of the chunks are in other blobs.
pub open spec fn elsewhere(chunks: Seq<LocatedChunk>, blob_id: Seq<u8>) -> nat
    decreases chunks.len(),
{
    if chunks.len() == 0 {
        0
    } else {
        elsewhere(chunks.drop_last(), blob_id) + if chunks.last().blob_id != blob_id {
            1nat
        } else {
            0nat
        }
    }
}

/// How many of the markers are in other blobs.
pub open spec fn markers_elsewhere(markers: Seq<LocatedComplete>, blob_id: Seq<u8>) -> nat
    decreases markers.len(),
{
    if markers.len() == 0 {
        0
    } else {
        markers_elsewhere(markers.drop_last(), blob_id) + if markers.last().blob_id != blob_id {
            1nat
        } else {
            0nat
        }
    }
}

/// The kept items of a list are at its front, each in its turn: that at `k` is now where as many
/// kept ones came before it.
proof fn lemma_chunks_elsewhere(chunks: Seq<LocatedChunk>, blob_id: Seq<u8>, k: int)
    requires
        0 <= k <= chunks.len(),
    ensures
        ({
            let kept = chunks.filter(|c: LocatedChunk| c.blob_id != blob_id);
            &&& kept.len() == elsewhere(chunks, blob_id)
            &&& k < chunks.len() && chunks[k].blob_id != blob_id ==> elsewhere(
                chunks.take(k),
                blob_id,
            ) < kept.len() && kept[elsewhere(chunks.take(k), blob_id) as int] == chunks[k]
        }),
    decreases chunks.len(),
{
    reveal(Seq::filter);
    let keep = |c: LocatedChunk| c.blob_id != blob_id;
    if chunks.len() > 0 {
        let front = chunks.drop_last();
        let last = chunks.len() - 1;
        lemma_chunks_elsewhere(front, blob_id, if k < last { k } else { last });
        if k < last {
            assert(front.take(k) =~= chunks.take(k));
            assert(front[k] == chunks[k]);
        } else if k == last {
            assert(chunks.take(k) =~= front);
        }
    }
}

proof fn lemma_markers_elsewhere(markers: Seq<LocatedComplete>, blob_id: Seq<u8>, k: int)
    requires
        0 <= k <= markers.len(),
    ensures
        ({
            let kept = markers.filter(|c: LocatedComplete| c.blob_id != blob_id);
            &&& kept.len() == markers_elsewhere(markers, blob_id)
            &&& k < markers.len() && markers[k].blob_id != blob_id ==> markers_elsewhere(
                markers.take(k),
                blob_id,
            ) < kept.len() && kept[markers_elsewhere(markers.take(k), blob_id) as int]
                == markers[k]
        }),
    decreases markers.len(),
{
    reveal(Seq::filter);
    let keep = |c: LocatedComplete| c.blob_id != blob_id;
    if markers.len() > 0 {
        let front = markers.drop_last();
        let last = markers.len() - 1;
        lemma_markers_elsewhere(front, blob_id, if k < last { k } else { last });
        if k < last {
            assert(front.take(k) =~= markers.take(k));
            assert(front[k] == markers[k]);
        } else if k == last {
            assert(markers.take(k) =~= front);
        }
    }
}

/// Learning a blob's index drops what was known of that blob, keeps what is in other blobs in the
/// same order, and puts the entries of the index behind it in their order.
pub proof fn law_blob_index_is_replaced(
    known: VaultIndexView,
    blob_id: Seq<u8>,
    index: IndexView,
    k: int,
)
    ensures
        ({
            let now = known.replaced(blob_id, index);
            let kept = elsewhere(known.chunks, blob_id);
            let marked = markers_elsewhere(known.completed_files, blob_id);
            &&& now.chunks.len() == kept + index.chunks.len()
            &&& now.completed_files.len() == marked + index.completed_files.len()
            &&& 0 <= k < index.chunks.len() ==> now.chunks[kept + k].blob_id == blob_id
                && now.chunks[kept + k].entry == index.chunks[k]
            &&& 0 <= k < index.completed_files.len() ==> now.completed_files[marked + k].blob_id
                == blob_id && now.completed_files[marked + k].entry == index.completed_files[k]
            &&& 0 <= k < known.chunks.len() && known.chunks[k].blob_id != blob_id
                ==> now.chunks[elsewhere(known.chunks.take(k), blob_id) as int] == known.chunks[k]
            &&& 0 <= k < known.completed_files.len() && known.completed_files[k].blob_id
                != blob_id ==> now.completed_files[markers_elsewhere(
                known.completed_files.take(k),
                blob_id,
            ) as int] == known.completed_files[k]
        }),
{
    lemma_chunks_elsewhere(known.chunks, blob_id, 0);
    lemma_markers_elsewhere(known.completed_files, blob_id, 0);
    if 0 <= k < known.chunks.len() {
        lemma_chunks_elsewhere(known.chunks, blob_id, k);
    }
    if 0 <= k < known.completed_files.len() {
        lemma_markers_elsewhere(known.completed_files, blob_id, k);
    }
}

/// A blob is found by its identity: the first that has it, and none where none has it.
pub proof fn law_blob_is_found_by_identity(blobs: Seq<BlobView>, blob_id: Seq<u8>, from: int)
    requires
        0 <= from,
    ensures
        match position_of(blobs, blob_id, from) {
            Some(i) => from <= i < blobs.len() && blobs[i].blob_id == blob_id && forall|j: int|
                from <= j < i ==> (#[trigger] blobs[j]).blob_id != blob_id,
            None => forall|j: int|
                from <= j < blobs.len() ==> (#[trigger] blobs[j]).blob_id != blob_id,
        },
    decreases blobs.len() - from,
{
    if from < blobs.len() && blobs[from].blob_id != blob_id {
        law_blob_is_found_by_identity(blobs, blob_id, from + 1);
    }
}

/// The file holds the whole index that the locator gives.
pub open spec fn lies_in(locator: LocatorView, image: Seq<u8>) -> bool {
    &&& locator.index_length <= usize::MAX
    &&& locator.index_length <= 274_877_906_880
    &&& locator.index_offset + locator.index_length <= image.len()
}

/// What the index that the locator gives is.
pub open spec fn index_at(b: BlobView, locator: LocatorView, image: Seq<u8>) -> Result<
    (IndexView, Seq<u8>),
    VaultError,
> {
    b.index_of(
        locator,
        image.subrange(
            locator.index_offset as int,
            locator.index_offset + locator.index_length,
        ),
    )
}

/// Reading the index anew finds the newest that is whole: that of the locator in force, else that
/// of the other. It fails for want of a locator where no slot opens, and gives up where neither
/// index is whole.
pub proof fn law_older_index_stands_in(b: BlobView, image: Seq<u8>)
    requires
        image.len() >= 4096,
        forall|i: int|
            0 <= i < b.locators(slots_in(image)).len() ==> lies_in(
                #[trigger] b.locators(slots_in(image))[i],
                image,
            ),
    ensures
        ({
            let found = b.locators(slots_in(image));
            let expected = if found.len() == 0 {
                Err(VaultError::NoValidLocator)
            } else if index_at(b, found[0], image) is Ok {
                Ok(index_at(b, found[0], image)->Ok_0.0)
            } else if found.len() > 1 && index_at(b, found[1], image) is Ok {
                Ok(index_at(b, found[1], image)->Ok_0.0)
            } else {
                Err(VaultError::RetryBudgetExceeded)
            };
            RefreshView::settles(
                StepView::Ask(RefreshView { locators: Seq::empty() }),
                b,
                image,
                Some(expected),
                3,
            )
        }),
{
    let found = b.locators(slots_in(image));
    assert(found.len() <= 2);
    reveal_with_fuel(newest_whole, 3);
    if found.len() > 0 {
        assert(lies_in(found[0], image));
        let l = found[0];
        if l.index_length == 0 {
            assert(image.subrange(l.index_offset as int, l.index_offset + l.index_length)
                =~= Seq::empty());
        }
    }
    if found.len() > 1 {
        assert(lies_in(found[1], image));
        let l = found[1];
        if l.index_length == 0 {
            assert(image.subrange(l.index_offset as int, l.index_offset + l.index_length)
                =~= Seq::empty());
        }
        assert(found.skip(1)[0] == found[1]);
        assert(found.skip(1).skip(1) =~= Seq::empty());
    } else if found.len() == 1 {
        assert(found.skip(1) =~= Seq::empty());
    }
    lemma_snapshot_settles(b, image);
}

/// A reader goes by the locator in force: it reads the index that the locator gives, decides at once
/// where that is empty, and gives up where no slot opens or no memory is large enough.
pub proof fn law_reader_follows_the_slot_in_force(b: BlobView, retries: usize, reply: Reply)
    requires
        reply is Bytes,
    ensures
        ({
            let operation = ReadIndexView { retries, locator: None };
            let next = operation.on_reply(b, reply);
            let found = b.locators(reply->Bytes_0@);
            let locator = found[0];
            if found.len() == 0 {
                next == StepView::<ReadIndexView, IndexView>::Done(
                    Err(VaultError::NoValidLocator),
                )
            } else if locator.index_length > usize::MAX {
                next == StepView::<ReadIndexView, IndexView>::Done(
                    Err(VaultError::IntegerOverflow),
                )
            } else if locator.index_length > 0 {
                &&& next is Ask
                &&& next->Ask_0.retries == retries
                &&& next->Ask_0.locator == Some(locator)
                &&& next->Ask_0.asks() == (RequestView::Read {
                    offset: locator.index_offset,
                    length: locator.index_length as usize,
                })
            } else {
                b.index_of(locator, Seq::empty()) is Ok ==> next == StepView::<
                    ReadIndexView,
                    IndexView,
                >::Done(Ok(b.index_of(locator, Seq::empty())->Ok_0.0))
            }
        }),
{
}

/// An index that is not authentic was read while it was being written. A reader then starts over
/// with one retry less, and gives up where none is left. It never takes the index, and starts over
/// for no other reason.
pub proof fn law_reader_starts_over(
    b: BlobView,
    retries: usize,
    locator: LocatorView,
    reply: Reply,
)
    requires
        reply is Bytes,
        reply->Bytes_0@.len() <= 274_877_906_880,
    ensures
        ({
            let operation = ReadIndexView { retries, locator: Some(locator) };
            let next = operation.on_reply(b, reply);
            match b.index_of(locator, reply->Bytes_0@) {
                Ok((index, _)) => next == StepView::<ReadIndexView, IndexView>::Done(Ok(index)),
                Err(error) => if error != VaultError::IndexMacMismatch {
                    next == StepView::<ReadIndexView, IndexView>::Done(Err(error))
                } else if retries == 0 {
                    next == StepView::<ReadIndexView, IndexView>::Done(
                        Err(VaultError::RetryBudgetExceeded),
                    )
                } else {
                    &&& next is Ask
                    &&& next->Ask_0.retries == retries - 1
                    &&& next->Ask_0.asks() == (RequestView::Read { offset: 2048, length: 2048 })
                },
            }
        }),
{
}

} // verus!
