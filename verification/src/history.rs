//! What a vault gives back of a file, from storing it on, whatever else is stored and attached
//! meanwhile.

use vstd::prelude::*;

use crate::blob::{data_tail_of, BlobView};
use crate::commit::{added_entries, entries_at};
use crate::contents::{
    counting, delivered, law_delivery_keeps_chunks, law_delivery_keeps_consistency,
    law_delivery_keeps_currency, law_delivery_keeps_other_files, law_delivery_keeps_soundness,
    law_known_chunks_are_readable, law_range_is_what_the_file_holds, law_range_read_starts,
    lemma_blob_index_replaced, lemma_contents_len, lemma_counting_all, lemma_filter_members,
    lemma_filter_none, lemma_filter_parts, lemma_marked_latest, lemma_position, lemma_same_file,
    marked, of_file, of_others, same_file,
};
use crate::crypto::blake2b256_digest;
use crate::error::VaultError;
use crate::files::{lemma_by_number, same_members};
use crate::index::NewChunkView;
use crate::plan::{chunks_of, pieces_of, FilePlan};
use crate::read::{frame_fits, on_frame};
use crate::refresh::{law_knowing_all_is_consistency, law_learning_adds, law_newest_index_is_found};
use crate::session::{on_attach_reply, position_of, RefreshIndexesView};
use crate::storage::{honest, Reply, StepView};
use crate::storing::{
    all_delivered, law_file_is_read, law_file_read_starts, lemma_parcels_shape, lists_nothing_of,
};
use crate::transfer::{marker_of, parcels_of, RangeView, ReadFileView};
use crate::types::CompleteView;
use crate::vault::{locate_chunks, locate_completes, LocatedChunk, LocatedComplete, VaultView};

verus! {

impl VaultView {
    /// The file is there: complete, every chunk of it readable, and with these contents. The vault
    /// knows what its files hold of it; on other files, and on markers of this one that count fewer
    /// chunks, it may be behind.
    pub open spec fn holds(
        self,
        images: Seq<Seq<u8>>,
        file_id: Seq<u8>,
        contents: Seq<u8>,
    ) -> bool {
        &&& contents.len() <= u64::MAX
        &&& self.index.ordered(file_id) matches Ok(chunks)
        &&& self.current_on(images, file_id, chunks.len() as int)
        &&& chunks.len() <= u64::MAX
        &&& self.contents(images, chunks) == contents
        &&& self.all_readable(images, chunks)
        &&& marked(
            self.index.file_completes(file_id),
            marker_of(file_id, contents, chunks.len() as int),
        )
    }
}

/// A file that a vault holds has the size of its contents and is not refused.
pub proof fn law_held_file_is_known(
    v: VaultView,
    images: Seq<Seq<u8>>,
    file_id: Seq<u8>,
    contents: Seq<u8>,
)
    requires
        v.holds(images, file_id, contents),
    ensures
        v.index.size(file_id) == Ok::<u64, VaultError>(contents.len() as u64),
        v.index.incompleteness(file_id) is None,
        v.checked_contents(file_id, contents) == Ok::<Seq<u8>, VaultError>(contents),
{
    let chunks = v.index.ordered(file_id)->Ok_0;
    lemma_contents_len(v, images, chunks);
    lemma_by_number(v.index.file_chunks(file_id));
    lemma_marked_latest(
        v.index.file_completes(file_id),
        marker_of(file_id, contents, chunks.len() as int),
    );
}

/// A blob with a new identity was attached: its file is consistent, and the vault knows of it.
pub open spec fn attached(
    v: VaultView,
    images: Seq<Seq<u8>>,
    b: BlobView,
    image: Seq<u8>,
    now: VaultView,
    now_images: Seq<Seq<u8>>,
) -> bool {
    &&& b.vault_id == v.vault_id
    &&& b.consistent(image)
    &&& forall|i: int| 0 <= i < v.blobs.len() ==> (#[trigger] v.blobs[i]).blob_id != b.blob_id
    &&& now_images == images.push(image)
    &&& now == (VaultView { blobs: v.blobs.push(b), ..v }).with_blob_index(
        v.blobs.len() as int,
        b.entries(image),
    )
}

proof fn lemma_position_pushed(blobs: Seq<BlobView>, b: BlobView, id: Seq<u8>, from: int)
    requires
        0 <= from <= blobs.len(),
        position_of(blobs, id, from) is Some,
    ensures
        position_of(blobs.push(b), id, from) == position_of(blobs, id, from),
    decreases blobs.len() - from,
{
    if from < blobs.len() {
        assert(blobs.push(b)[from] == blobs[from]);
        if blobs[from].blob_id != id {
            lemma_position_pushed(blobs, b, id, from + 1);
        }
    }
}

/// A vault that a blob was just attached to knows of the others.
proof fn lemma_wider_knows(v: VaultView, images: Seq<Seq<u8>>, b: BlobView, image: Seq<u8>)
    requires
        v.consistent(images),
        b.vault_id == v.vault_id,
        b.consistent(image),
        forall|i: int| 0 <= i < v.blobs.len() ==> (#[trigger] v.blobs[i]).blob_id != b.blob_id,
    ensures
        (VaultView { blobs: v.blobs.push(b), ..v }).knows_of(
            images.push(image),
            Set::new(|i: int| 0 <= i < v.blobs.len()),
        ),
{
    let wider_images = images.push(image);
    let wider = VaultView { blobs: v.blobs.push(b), ..v };
    let n = v.blobs.len() as int;
    let known = Set::new(|i: int| 0 <= i < v.blobs.len());
    assert forall|i: int| 0 <= i < wider.blobs.len() implies (
    #[trigger] wider.blobs[i]).consistent(wider_images[i]) by {
        if i < n {
            assert(v.blobs[i].consistent(images[i]));
        }
    }
    assert forall|i: int|
        0 <= i < wider.blobs.len() && known.contains(i) implies #[trigger] wider.knows(
        i,
        wider_images[i],
    ) by {
        assert(v.knows(i, images[i]));
        assert(wider.blobs[i] == v.blobs[i]);
    }
    assert forall|i: int, j: int| 0 <= i < j < wider.blobs.len() implies (
    #[trigger] wider.blobs[i]).blob_id != (#[trigger] wider.blobs[j]).blob_id by {
        assert(wider.blobs[i] == v.blobs[i]);
        if j < n {
            assert(wider.blobs[j] == v.blobs[j]);
        }
    }
    assert forall|k: int| 0 <= k < v.index.chunks.len() implies position_of(
        wider.blobs,
        (#[trigger] v.index.chunks[k]).blob_id,
        0,
    ) is Some by {
        lemma_position_pushed(v.blobs, b, v.index.chunks[k].blob_id, 0);
    }
    assert forall|k: int| 0 <= k < v.index.completed_files.len() implies position_of(
        wider.blobs,
        (#[trigger] v.index.completed_files[k]).blob_id,
        0,
    ) is Some by {
        lemma_position_pushed(v.blobs, b, v.index.completed_files[k].blob_id, 0);
    }
    assert forall|i: int| 0 <= i < wider.blobs.len() implies (#[trigger] wider.blobs[i]).vault_id
        == wider.vault_id by {
        if i < n {
            assert(wider.blobs[i] == v.blobs[i]);
        }
    }
    assert(wider.knows_of(wider_images, known));
}

/// Attaching a blob of the vault with a new identity, whose file is consistent and answers as it
/// should, leads on or ends with the blob attached, whether or not the vault knows what its files
/// hold.
pub proof fn law_blob_is_attached(
    v: VaultView,
    images: Seq<Seq<u8>>,
    b: BlobView,
    image: Seq<u8>,
    operation: RefreshIndexesView,
    reply: Reply,
)
    requires
        v.sound(images),
        b.vault_id == v.vault_id,
        b.consistent(image),
        forall|i: int| 0 <= i < v.blobs.len() ==> (#[trigger] v.blobs[i]).blob_id != b.blob_id,
        operation.at == v.blobs.len(),
        operation.operation.valid(),
        operation.operation.tracks(b, image),
        b.active(image).index_length <= usize::MAX,
        honest(image, operation.operation.asks(), reply),
    ensures
        ({
            let wider = VaultView { blobs: v.blobs.push(b), ..v };
            let (step, now) = on_attach_reply(operation, wider, reply);
            match step {
                StepView::Ask(next) => {
                    &&& next.at == operation.at
                    &&& next.operation.tracks(b, image)
                    &&& now == wider
                },
                StepView::Done(result) => {
                    &&& result == Ok::<(), VaultError>(())
                    &&& attached(v, images, b, image, now, images.push(image))
                    &&& now.sound(images.push(image))
                    &&& v.consistent(images) ==> now.consistent(images.push(image))
                },
            }
        }),
{
    let wider = VaultView { blobs: v.blobs.push(b), ..v };
    assert(wider.blobs[operation.at] == b);
    law_newest_index_is_found(operation.operation, b, image, reply);
    let (step, now) = on_attach_reply(operation, wider, reply);
    if step is Done {
        law_attaching_keeps_soundness(v, images, b, image, now, images.push(image));
        if v.consistent(images) {
            law_attaching_keeps_consistency(v, images, b, image, now, images.push(image));
        }
    }
}

/// Attaching a blob leaves every blob with a file that is consistent.
pub proof fn law_attaching_keeps_soundness(
    v: VaultView,
    images: Seq<Seq<u8>>,
    b: BlobView,
    image: Seq<u8>,
    now: VaultView,
    now_images: Seq<Seq<u8>>,
)
    requires
        v.sound(images),
        attached(v, images, b, image, now, now_images),
    ensures
        now.sound(now_images),
{
    let n = v.blobs.len() as int;
    assert forall|i: int| 0 <= i < now.blobs.len() implies (#[trigger] now.blobs[i]).consistent(
        now_images[i],
    ) && now.blobs[i].vault_id == now.vault_id by {
        if i < n {
            assert(now.blobs[i] == v.blobs[i]);
            assert(v.blobs[i].consistent(images[i]));
        }
    }
    assert forall|i: int, j: int| 0 <= i < j < now.blobs.len() implies (
    #[trigger] now.blobs[i]).blob_id != (#[trigger] now.blobs[j]).blob_id by {
        assert(now.blobs[i] == v.blobs[i]);
        if j < n {
            assert(now.blobs[j] == v.blobs[j]);
        }
    }
}

/// Attaching a blob keeps a vault consistent with its files.
pub proof fn law_attaching_keeps_consistency(
    v: VaultView,
    images: Seq<Seq<u8>>,
    b: BlobView,
    image: Seq<u8>,
    now: VaultView,
    now_images: Seq<Seq<u8>>,
)
    requires
        v.consistent(images),
        attached(v, images, b, image, now, now_images),
    ensures
        now.consistent(now_images),
{
    let wider = VaultView { blobs: v.blobs.push(b), ..v };
    let n = v.blobs.len() as int;
    let known = Set::new(|i: int| 0 <= i < n);
    lemma_wider_knows(v, images, b, image);
    law_learning_adds(wider, now_images, known, n);
    law_knowing_all_is_consistency(now, now_images, known.insert(n));
}

/// Attaching a blob that lists no chunk of a file, and no marker of it that counts enough, keeps
/// the vault current on the file.
pub proof fn law_attaching_keeps_currency(
    v: VaultView,
    images: Seq<Seq<u8>>,
    b: BlobView,
    image: Seq<u8>,
    now: VaultView,
    now_images: Seq<Seq<u8>>,
    file_id: Seq<u8>,
    count: int,
)
    requires
        v.current_on(images, file_id, count),
        attached(v, images, b, image, now, now_images),
        lists_nothing_of(b.entries(image), file_id, count),
    ensures
        now.current_on(now_images, file_id, count),
{
    let n = v.blobs.len() as int;
    law_attaching_keeps_soundness(v, images, b, image, now, now_images);
    lemma_attached_listing(v, images, b, image, now, now_images, file_id, count);
    assert forall|i: int| 0 <= i < now.blobs.len() implies #[trigger] now.knows_file(
        i,
        now_images[i],
        file_id,
        count,
    ) by {
        lemma_blob_index_replaced(v.index, b.blob_id, b.entries(image), now.blobs[i].blob_id);
        if i < n {
            assert(now.blobs[i] == v.blobs[i]);
            assert(v.knows_file(i, images[i], file_id, count));
            assert(v.blobs[i].blob_id != b.blob_id);
        }
    }
    let before = v.index.file_chunks(file_id);
    let listed = now.index.file_chunks(file_id);
    assert forall|k: int| 0 <= k < listed.len() implies position_of(
        now.blobs,
        (#[trigger] listed[k]).blob_id,
        0,
    ) is Some by {
        assert(listed.contains(listed[k]));
        assert(before.contains(listed[k]));
        let j = choose|j: int| 0 <= j < before.len() && before[j] == listed[k];
        assert(position_of(v.blobs, before[j].blob_id, 0) is Some);
        lemma_position_pushed(v.blobs, b, before[j].blob_id, 0);
    }
    let marks_before = v.index.completes_from(file_id, count);
    let marks = now.index.completes_from(file_id, count);
    assert forall|k: int| 0 <= k < marks.len() implies position_of(
        now.blobs,
        (#[trigger] marks[k]).blob_id,
        0,
    ) is Some by {
        assert(marks.contains(marks[k]));
        assert(marks_before.contains(marks[k]));
        let j = choose|j: int| 0 <= j < marks_before.len() && marks_before[j] == marks[k];
        assert(position_of(v.blobs, marks_before[j].blob_id, 0) is Some);
        lemma_position_pushed(v.blobs, b, marks_before[j].blob_id, 0);
    }
}

/// Attaching such a blob changes neither the chunks of the file nor its markers that count enough.
proof fn lemma_attached_listing(
    v: VaultView,
    images: Seq<Seq<u8>>,
    b: BlobView,
    image: Seq<u8>,
    now: VaultView,
    now_images: Seq<Seq<u8>>,
    file_id: Seq<u8>,
    count: int,
)
    requires
        v.current_on(images, file_id, count),
        attached(v, images, b, image, now, now_images),
        lists_nothing_of(b.entries(image), file_id, count),
    ensures
        same_members(now.index.file_chunks(file_id), v.index.file_chunks(file_id)),
        same_members(
            now.index.completes_from(file_id, count),
            v.index.completes_from(file_id, count),
        ),
{
    let id = b.blob_id;
    let entries = b.entries(image);
    let p = of_file(file_id);
    let q = |c: LocatedChunk| c.blob_id == id;
    let not_q = |c: LocatedChunk| c.blob_id != id;
    let all = v.index.chunks;
    let fresh = locate_chunks(id, entries.chunks);
    assert forall|i: int| 0 <= i < fresh.len() implies !p(#[trigger] fresh[i]) by {
        assert(entries.chunks[i].file_id != file_id);
    }
    lemma_filter_none(fresh, p);
    Seq::filter_distributes_over_add(all.filter(not_q), fresh, p);
    assert((|c: LocatedChunk| !q(c)) =~= not_q);
    lemma_filter_parts(all, q, p);
    assert forall|k: int| 0 <= k < all.filter(q).len() implies !p(#[trigger] all.filter(q)[k]) by {
        let chunk = all.filter(q)[k];
        let listed = v.index.file_chunks(file_id);
        assert(all.filter(q).contains(chunk));
        lemma_filter_members(all, q, chunk);
        lemma_filter_members(all, p, chunk);
        if p(chunk) {
            let j = choose|j: int| 0 <= j < listed.len() && listed[j] == chunk;
            assert(position_of(v.blobs, listed[j].blob_id, 0) is Some);
            lemma_position(v.blobs, chunk.blob_id, 0);
        }
    }
    lemma_filter_none(all.filter(q), p);
    assert(all.filter(not_q).filter(p) + all.filter(q).filter(p) =~= all.filter(not_q).filter(p));
    assert(now.index.file_chunks(file_id) =~= all.filter(not_q).filter(p));

    let cp = counting(file_id, count);
    let cq = |c: LocatedComplete| c.blob_id == id;
    let not_cq = |c: LocatedComplete| c.blob_id != id;
    let all_marks = v.index.completed_files;
    let marks = locate_completes(id, entries.completed_files);
    assert forall|i: int| 0 <= i < marks.len() implies !cp(#[trigger] marks[i]) by {
        assert(entries.completed_files[i].file_id != file_id
            || entries.completed_files[i].total_chunks < count);
    }
    lemma_filter_none(marks, cp);
    Seq::filter_distributes_over_add(all_marks.filter(not_cq), marks, cp);
    assert((|c: LocatedComplete| !cq(c)) =~= not_cq);
    lemma_filter_parts(all_marks, cq, cp);
    let here = all_marks.filter(cq);
    assert forall|k: int| 0 <= k < here.len() implies !cp(#[trigger] here[k]) by {
        let listed = v.index.completes_from(file_id, count);
        assert(here.contains(here[k]));
        lemma_filter_members(all_marks, cq, here[k]);
        lemma_filter_members(all_marks, cp, here[k]);
        if cp(here[k]) {
            let j = choose|j: int| 0 <= j < listed.len() && listed[j] == here[k];
            assert(position_of(v.blobs, listed[j].blob_id, 0) is Some);
            lemma_position(v.blobs, here[k].blob_id, 0);
        }
    }
    lemma_filter_none(here, cp);
    let kept = all_marks.filter(not_cq).filter(cp);
    assert(kept + here.filter(cp) =~= kept);
    assert(now.index.completes_from(file_id, count) =~= kept);
}

/// Attaching a blob leaves every file as it was that the blob lists no chunk of, and no marker that
/// counts enough.
pub proof fn law_attaching_keeps_other_files(
    v: VaultView,
    images: Seq<Seq<u8>>,
    b: BlobView,
    image: Seq<u8>,
    now: VaultView,
    now_images: Seq<Seq<u8>>,
    file_id: Seq<u8>,
    count: int,
)
    requires
        v.current_on(images, file_id, count),
        attached(v, images, b, image, now, now_images),
        lists_nothing_of(b.entries(image), file_id, count),
    ensures
        same_file(v, images, now, now_images, file_id, count),
{
    let listed = v.index.file_chunks(file_id);
    lemma_attached_listing(v, images, b, image, now, now_images, file_id, count);
    assert forall|chunk: LocatedChunk| listed.contains(chunk) implies #[trigger] now.chunk_contents(
        now_images,
        chunk,
    ) == v.chunk_contents(images, chunk) by {
        let j = choose|j: int| 0 <= j < listed.len() && listed[j] == chunk;
        assert(position_of(v.blobs, listed[j].blob_id, 0) is Some);
        lemma_position(v.blobs, chunk.blob_id, 0);
        lemma_position_pushed(v.blobs, b, chunk.blob_id, 0);
    }
    lemma_same_file(v, images, now, now_images, file_id, count);
}

/// Chunks and markers of other files came to one of the blobs, or markers that do not count enough.
pub open spec fn others_delivered(
    v: VaultView,
    images: Seq<Seq<u8>>,
    blob: int,
    chunks: Seq<NewChunkView>,
    completes: Seq<CompleteView>,
    now: VaultView,
    now_images: Seq<Seq<u8>>,
    file_id: Seq<u8>,
    count: int,
) -> bool {
    &&& delivered(v, images, blob, chunks, completes, now, now_images)
    &&& of_others(chunks, completes, file_id, count)
}

/// Chunks and markers of other files came to one of the blobs without the vault knowing of it.
pub open spec fn others_written(
    v: VaultView,
    images: Seq<Seq<u8>>,
    blob: int,
    chunks: Seq<NewChunkView>,
    completes: Seq<CompleteView>,
    now_images: Seq<Seq<u8>>,
    file_id: Seq<u8>,
    count: int,
) -> bool {
    let told = v.with_blob_index(blob, v.blobs[blob].entries(now_images[blob]));
    others_delivered(v, images, blob, chunks, completes, told, now_images, file_id, count)
}

/// A blob that lists nothing of the file was attached.
pub open spec fn other_attached(
    v: VaultView,
    images: Seq<Seq<u8>>,
    b: BlobView,
    image: Seq<u8>,
    now: VaultView,
    now_images: Seq<Seq<u8>>,
    file_id: Seq<u8>,
    count: int,
) -> bool {
    &&& attached(v, images, b, image, now, now_images)
    &&& lists_nothing_of(b.entries(image), file_id, count)
}

/// What storing other files, reading indexes again and attaching blobs that do not list the file do
/// to a vault: a parcel is delivered, be it empty, a blob is attached, or the turn is passed on.
pub open spec fn own_step(
    v: VaultView,
    images: Seq<Seq<u8>>,
    now: VaultView,
    now_images: Seq<Seq<u8>>,
    file_id: Seq<u8>,
    count: int,
) -> bool {
    ||| now == (VaultView { cursor: now.cursor, ..v }) && now_images == images
    ||| exists|blob: int, chunks: Seq<NewChunkView>, completes: Seq<CompleteView>| #[trigger]
        others_delivered(v, images, blob, chunks, completes, now, now_images, file_id, count)
    ||| exists|b: BlobView, image: Seq<u8>| #[trigger]
        other_attached(v, images, b, image, now, now_images, file_id, count)
}

/// A step that does not touch the file: one of the vault's own, or someone else writes other files
/// to one of the blobs.
pub open spec fn undisturbed(
    v: VaultView,
    images: Seq<Seq<u8>>,
    now: VaultView,
    now_images: Seq<Seq<u8>>,
    file_id: Seq<u8>,
    count: int,
) -> bool {
    ||| own_step(v, images, now, now_images, file_id, count)
    ||| now == v && exists|blob: int, chunks: Seq<NewChunkView>, completes: Seq<CompleteView>|
        #[trigger]
        others_written(v, images, blob, chunks, completes, now_images, file_id, count)
}

/// A step of the vault's own keeps it consistent with its files.
pub proof fn law_own_step_keeps_consistency(
    v: VaultView,
    images: Seq<Seq<u8>>,
    now: VaultView,
    now_images: Seq<Seq<u8>>,
    file_id: Seq<u8>,
    count: int,
)
    requires
        v.consistent(images),
        own_step(v, images, now, now_images, file_id, count),
    ensures
        now.consistent(now_images),
{
    if now == (VaultView { cursor: now.cursor, ..v }) && now_images == images {
        assert forall|i: int| 0 <= i < now.blobs.len() implies #[trigger] now.knows(
            i,
            now_images[i],
        ) by {
            assert(v.knows(i, images[i]));
        }
    } else if exists|blob: int, chunks: Seq<NewChunkView>, completes: Seq<CompleteView>|
        #[trigger]
        others_delivered(v, images, blob, chunks, completes, now, now_images, file_id, count) {
        let (blob, sent, completes) = choose|
            blob: int,
            chunks: Seq<NewChunkView>,
            completes: Seq<CompleteView>,
        | #[trigger]
            others_delivered(v, images, blob, chunks, completes, now, now_images, file_id, count);
        law_delivery_keeps_consistency(v, images, blob, sent, completes, now, now_images);
    } else {
        let (b, image) = choose|b: BlobView, image: Seq<u8>| #[trigger]
            other_attached(v, images, b, image, now, now_images, file_id, count);
        law_attaching_keeps_consistency(v, images, b, image, now, now_images);
    }
}

/// What others write keeps a vault current on the file and the file the same, although the vault
/// does not know of it.
pub proof fn law_unknown_writes_do_not_matter(
    v: VaultView,
    images: Seq<Seq<u8>>,
    blob: int,
    chunks: Seq<NewChunkView>,
    completes: Seq<CompleteView>,
    now_images: Seq<Seq<u8>>,
    file_id: Seq<u8>,
    count: int,
)
    requires
        v.current_on(images, file_id, count),
        others_written(v, images, blob, chunks, completes, now_images, file_id, count),
    ensures
        v.current_on(now_images, file_id, count),
        same_file(v, images, v, now_images, file_id, count),
{
    let b = v.blobs[blob];
    let id = b.blob_id;
    let told = v.with_blob_index(blob, b.entries(now_images[blob]));
    let listed = v.index.file_chunks(file_id);
    let p = of_file(file_id);
    let cp = counting(file_id, count);
    law_delivery_keeps_soundness(v, images, blob, chunks, completes, told, now_images);
    assert forall|i: int| 0 <= i < v.blobs.len() implies (#[trigger] v.blobs[i]).consistent(
        now_images[i],
    ) by {
        assert(told.blobs[i].consistent(now_images[i]));
    }
    assert forall|i: int| 0 <= i < v.blobs.len() implies #[trigger] v.knows_file(
        i,
        now_images[i],
        file_id,
        count,
    ) by {
        assert(v.knows_file(i, images[i], file_id, count));
        if i == blob {
            let old = b.entries(images[blob]);
            let tail = data_tail_of(old.chunks);
            let fresh = locate_chunks(id, entries_at(chunks, tail));
            let marks = locate_completes(id, completes);
            let known = locate_chunks(id, old.chunks);
            let known_marks = locate_completes(id, old.completed_files);
            assert forall|k: int| 0 <= k < fresh.len() implies !p(#[trigger] fresh[k]) by {
                assert(chunks[k].file_id != file_id);
            }
            assert forall|k: int| 0 <= k < marks.len() implies !cp(#[trigger] marks[k]) by {
                assert(completes[k].file_id != file_id || completes[k].total_chunks < count);
            }
            lemma_filter_none(fresh, p);
            lemma_filter_none(marks, cp);
            Seq::filter_distributes_over_add(known, fresh, p);
            Seq::filter_distributes_over_add(known_marks, marks, cp);
            assert(locate_chunks(id, b.entries(now_images[blob]).chunks) =~= known + fresh);
            assert(locate_completes(id, b.entries(now_images[blob]).completed_files)
                =~= known_marks + marks);
            assert(known.filter(p) + fresh.filter(p) =~= known.filter(p));
            assert(known_marks.filter(cp) + marks.filter(cp) =~= known_marks.filter(cp));
        }
    }
    assert forall|chunk: LocatedChunk| listed.contains(chunk) implies #[trigger] v.chunk_contents(
        now_images,
        chunk,
    ) == v.chunk_contents(images, chunk) by {
        lemma_filter_members(v.index.chunks, p, chunk);
        law_delivery_keeps_chunks(
            v,
            images,
            blob,
            chunks,
            completes,
            told,
            now_images,
            chunk,
            count,
        );
        assert(told.chunk_contents(now_images, chunk) == v.chunk_contents(now_images, chunk));
    }
    lemma_same_file(v, images, v, now_images, file_id, count);
}

/// Each such step keeps the vault current on the file, and the file the same.
pub proof fn law_undisturbed_file_is_the_same(
    v: VaultView,
    images: Seq<Seq<u8>>,
    now: VaultView,
    now_images: Seq<Seq<u8>>,
    file_id: Seq<u8>,
    count: int,
)
    requires
        v.current_on(images, file_id, count),
        undisturbed(v, images, now, now_images, file_id, count),
    ensures
        now.current_on(now_images, file_id, count),
        same_file(v, images, now, now_images, file_id, count),
{
    if now == (VaultView { cursor: now.cursor, ..v }) && now_images == images {
        assert forall|i: int| 0 <= i < now.blobs.len() implies #[trigger] now.knows_file(
            i,
            now_images[i],
            file_id,
            count,
        ) by {
            assert(v.knows_file(i, images[i], file_id, count));
        }
        assert(now.sound(now_images));
        lemma_same_file(v, images, now, now_images, file_id, count);
    } else if exists|blob: int, chunks: Seq<NewChunkView>, completes: Seq<CompleteView>|
        #[trigger]
        others_delivered(v, images, blob, chunks, completes, now, now_images, file_id, count) {
        let (blob, sent, marks) = choose|
            blob: int,
            chunks: Seq<NewChunkView>,
            completes: Seq<CompleteView>,
        | #[trigger]
            others_delivered(v, images, blob, chunks, completes, now, now_images, file_id, count);
        law_delivery_keeps_currency(
            v,
            images,
            blob,
            sent,
            marks,
            now,
            now_images,
            file_id,
            count,
        );
        law_delivery_keeps_other_files(
            v,
            images,
            blob,
            sent,
            marks,
            now,
            now_images,
            file_id,
            count,
        );
    } else if exists|b: BlobView, image: Seq<u8>| #[trigger]
        other_attached(v, images, b, image, now, now_images, file_id, count) {
        let (b, image) = choose|b: BlobView, image: Seq<u8>| #[trigger]
            other_attached(v, images, b, image, now, now_images, file_id, count);
        law_attaching_keeps_currency(v, images, b, image, now, now_images, file_id, count);
        law_attaching_keeps_other_files(v, images, b, image, now, now_images, file_id, count);
    } else {
        let (blob, sent, marks) = choose|
            blob: int,
            chunks: Seq<NewChunkView>,
            completes: Seq<CompleteView>,
        | #[trigger]
            others_written(v, images, blob, chunks, completes, now_images, file_id, count);
        law_unknown_writes_do_not_matter(
            v,
            images,
            blob,
            sent,
            marks,
            now_images,
            file_id,
            count,
        );
    }
}

/// Reading the index of a blob again is a step of the vault's own that touches no file.
pub proof fn law_reading_again_does_not_disturb(
    v: VaultView,
    images: Seq<Seq<u8>>,
    at: int,
    file_id: Seq<u8>,
    count: int,
)
    requires
        v.sound(images),
        0 <= at < v.blobs.len(),
    ensures
        own_step(
            v,
            images,
            v.with_blob_index(at, v.blobs[at].entries(images[at])),
            images,
            file_id,
            count,
        ),
{
    let b = v.blobs[at];
    let nothing = Seq::<NewChunkView>::empty();
    let no_marks = Seq::<CompleteView>::empty();
    let old = b.entries(images[at]);
    assert(b.consistent(images[at]));
    assert(images.update(at, images[at]) =~= images);
    assert(old.concat(added_entries(nothing, no_marks, data_tail_of(old.chunks))) =~= old);
    assert(others_delivered(
        v,
        images,
        at,
        nothing,
        no_marks,
        v.with_blob_index(at, old),
        images,
        file_id,
        count,
    ));
}

/// A file that a vault holds is held as long as it stays the same.
pub proof fn law_same_file_is_held(
    v: VaultView,
    images: Seq<Seq<u8>>,
    now: VaultView,
    now_images: Seq<Seq<u8>>,
    file_id: Seq<u8>,
    contents: Seq<u8>,
)
    requires
        v.holds(images, file_id, contents),
        now.current_on(now_images, file_id, v.index.ordered(file_id)->Ok_0.len() as int),
        same_file(
            v,
            images,
            now,
            now_images,
            file_id,
            v.index.ordered(file_id)->Ok_0.len() as int,
        ),
    ensures
        now.holds(now_images, file_id, contents),
{
    let chunks = v.index.ordered(file_id)->Ok_0;
    let p = of_file(file_id);
    assert(marked(
        now.index.file_completes(file_id),
        marker_of(file_id, contents, chunks.len() as int),
    ));
    lemma_by_number(now.index.file_chunks(file_id));
    assert forall|k: int| 0 <= k < chunks.len() implies now.readable(
        now_images,
        #[trigger] chunks[k],
    ) && frame_fits(chunks[k].entry) by {
        assert(v.readable(images, chunks[k]));
        assert(chunks.contains(chunks[k]));
        lemma_filter_members(now.index.chunks, p, chunks[k]);
        law_known_chunks_are_readable(now, now_images, chunks[k], chunks.len() as int);
    }
}

/// The vault and its files went through these states, and no chunk of the file came or went, and no
/// marker that counts enough.
pub open spec fn undisturbed_history(
    vaults: Seq<VaultView>,
    images: Seq<Seq<Seq<u8>>>,
    file_id: Seq<u8>,
    count: int,
) -> bool {
    &&& vaults.len() == images.len()
    &&& forall|k: int|
        #![trigger vaults[k]]
        0 < k < vaults.len() ==> undisturbed(
            vaults[k - 1],
            images[k - 1],
            vaults[k],
            images[k],
            file_id,
            count,
        )
}

/// A file, whether it is complete, partial or not there at all, stays the same for as long as only
/// other files are stored, by this vault or by others, and only blobs that list no chunk of it and
/// no marker that counts enough are attached.
pub proof fn law_file_stays_the_same(
    vaults: Seq<VaultView>,
    images: Seq<Seq<Seq<u8>>>,
    file_id: Seq<u8>,
    count: int,
    k: int,
)
    requires
        0 <= k < vaults.len(),
        vaults[0].current_on(images[0], file_id, count),
        undisturbed_history(vaults, images, file_id, count),
    ensures
        vaults[k].current_on(images[k], file_id, count),
        same_file(vaults[0], images[0], vaults[k], images[k], file_id, count),
    decreases k,
{
    if k == 0 {
        lemma_same_file(vaults[0], images[0], vaults[0], images[0], file_id, count);
    } else {
        law_file_stays_the_same(vaults, images, file_id, count, k - 1);
        assert(undisturbed(vaults[k - 1], images[k - 1], vaults[k], images[k], file_id, count));
        law_undisturbed_file_is_the_same(
            vaults[k - 1],
            images[k - 1],
            vaults[k],
            images[k],
            file_id,
            count,
        );
        lemma_same_file_chains(
            vaults[0],
            images[0],
            vaults[k - 1],
            images[k - 1],
            vaults[k],
            images[k],
            file_id,
            count,
        );
    }
}

proof fn lemma_same_file_chains(
    first: VaultView,
    first_images: Seq<Seq<u8>>,
    v: VaultView,
    images: Seq<Seq<u8>>,
    now: VaultView,
    now_images: Seq<Seq<u8>>,
    file_id: Seq<u8>,
    count: int,
)
    requires
        same_file(first, first_images, v, images, file_id, count),
        same_file(v, images, now, now_images, file_id, count),
    ensures
        same_file(first, first_images, now, now_images, file_id, count),
{
    let a = first.index.completes_from(file_id, count);
    let b = v.index.completes_from(file_id, count);
    let c = now.index.completes_from(file_id, count);
    assert forall|x: LocatedComplete| #[trigger] c.contains(x) <==> a.contains(x) by {
        assert(c.contains(x) <==> b.contains(x));
        assert(b.contains(x) <==> a.contains(x));
    }
    if count == 0 {
        lemma_counting_all(first.index, file_id);
        lemma_counting_all(v.index, file_id);
    }
    assert forall|marker: CompleteView|
        marker.total_chunks >= count && marked(
            first.index.file_completes(file_id),
            marker,
        ) implies #[trigger] marked(now.index.file_completes(file_id), marker) by {
        assert(marked(v.index.file_completes(file_id), marker));
    }
}

/// A file that a vault holds is held for as long as only other files are stored, by this vault or
/// by others, and only blobs are attached that list no chunk of it and no marker that counts as
/// many chunks as it has.
pub proof fn law_file_is_held_on(
    vaults: Seq<VaultView>,
    images: Seq<Seq<Seq<u8>>>,
    file_id: Seq<u8>,
    contents: Seq<u8>,
    k: int,
)
    requires
        0 <= k < vaults.len(),
        vaults[0].holds(images[0], file_id, contents),
        undisturbed_history(
            vaults,
            images,
            file_id,
            vaults[0].index.ordered(file_id)->Ok_0.len() as int,
        ),
    ensures
        vaults[k].holds(images[k], file_id, contents),
{
    let count = vaults[0].index.ordered(file_id)->Ok_0.len() as int;
    law_file_stays_the_same(vaults, images, file_id, count, k);
    law_same_file_is_held(vaults[0], images[0], vaults[k], images[k], file_id, contents);
}

/// The deliveries of one file, all of them or the first ones, are such a history for every other
/// file.
pub proof fn law_deliveries_do_not_disturb(
    stored: Seq<u8>,
    contents: Seq<u8>,
    plan: FilePlan,
    blobs: int,
    done: int,
    vaults: Seq<VaultView>,
    images: Seq<Seq<Seq<u8>>>,
    file_id: Seq<u8>,
    count: int,
)
    requires
        stored != file_id,
        plan.blobs.len() == pieces_of(contents, plan.chunk_size).len(),
        0 <= blobs,
        0 <= done <= parcels_of(stored, contents, plan, blobs).len(),
        all_delivered(parcels_of(stored, contents, plan, blobs).take(done), vaults, images),
    ensures
        undisturbed_history(vaults, images, file_id, count),
{
    let parcels = parcels_of(stored, contents, plan, blobs);
    let chunks = chunks_of(stored, contents, plan.chunk_size);
    let marker = marker_of(stored, contents, plan.blobs.len() as int);
    lemma_parcels_shape(chunks, plan.blobs, marker, 0, blobs, stored);
    assert forall|k: int| #![trigger vaults[k]] 0 < k < vaults.len() implies undisturbed(
        vaults[k - 1],
        images[k - 1],
        vaults[k],
        images[k],
        file_id,
        count,
    ) by {
        let parcel = parcels[k - 1];
        assert(parcels.take(done)[k - 1] == parcel);
        assert(delivered(
            vaults[k - 1],
            images[k - 1],
            parcel.blob,
            parcel.chunks,
            parcel.completed_files,
            vaults[k - 1 + 1],
            images[k - 1 + 1],
        ));
        assert forall|i: int| 0 <= i < parcel.chunks.len() implies (
        #[trigger] parcel.chunks[i]).file_id != file_id by {
            assert(parcels[k - 1].chunks[i].file_id == stored);
        }
        assert(others_delivered(
            vaults[k - 1],
            images[k - 1],
            parcel.blob,
            parcel.chunks,
            parcel.completed_files,
            vaults[k],
            images[k],
            file_id,
            count,
        ));
    }
}

impl RangeView {
    /// On files that answer as they should, a step ends with what is expected after `n` more
    /// requests at most.
    pub open spec fn settles(
        step: StepView<RangeView, Seq<u8>>,
        v: VaultView,
        images: Seq<Seq<u8>>,
        expected: Result<Seq<u8>, VaultError>,
        n: nat,
    ) -> bool
        decreases n,
    {
        match step {
            StepView::Done(result) => result == expected,
            StepView::Ask(operation) => n > 0 && forall|reply: Reply| #[trigger]
                honest(images[operation.at], operation.asks(), reply) ==> RangeView::settles(
                    operation.on_reply(v, reply),
                    v,
                    images,
                    expected,
                    (n - 1) as nat,
                ),
        }
    }
}

impl ReadFileView {
    /// On files that answer as they should, a step ends with what is expected after `n` more
    /// requests at most.
    pub open spec fn settles(
        step: StepView<ReadFileView, Seq<u8>>,
        v: VaultView,
        images: Seq<Seq<u8>>,
        expected: Result<Seq<u8>, VaultError>,
        n: nat,
    ) -> bool
        decreases n,
    {
        match step {
            StepView::Done(result) => result == expected,
            StepView::Ask(file) => n > 0 && forall|reply: Reply| #[trigger]
                honest(images[file.range.at], file.range.asks(), reply) ==> ReadFileView::settles(
                    v.file_step(file.file_id, file.range.on_reply(v, reply)),
                    v,
                    images,
                    expected,
                    (n - 1) as nat,
                ),
        }
    }
}

proof fn lemma_going_on_advances(r: RangeView, v: VaultView, k: int, out: Seq<u8>)
    ensures
        r.going_on(v, k, out) matches StepView::Ask(next) ==> k <= next.next < r.chunks.len(),
    decreases r.chunks.len() - k,
{
    if k < r.chunks.len() && r.end_of(k) <= r.offset {
        lemma_going_on_advances(r, v, k + 1, out);
    }
}

proof fn lemma_reply_advances(r: RangeView, v: VaultView, reply: Reply)
    requires
        on_frame(v.blobs[r.at], r.chunks[r.next].entry, reply) is Done,
    ensures
        r.on_reply(v, reply) matches StepView::Ask(next) ==> r.next < next.next,
{
    match on_frame(v.blobs[r.at], r.chunks[r.next].entry, reply) {
        StepView::Done(Ok(plaintext)) => lemma_going_on_advances(
            r,
            v,
            r.next + 1,
            r.out + r.part(r.next, plaintext),
        ),
        _ => {},
    }
}

proof fn lemma_range_settles(r: RangeView, v: VaultView, images: Seq<Seq<u8>>, n: nat)
    requires
        r.tracks(v, images),
        n >= r.chunks.len() - r.next,
    ensures
        RangeView::settles(
            StepView::Ask(r),
            v,
            images,
            Ok(v.contents(images, r.chunks).subrange(r.offset, r.end)),
            n,
        ),
    decreases n,
{
    let expected = Ok::<Seq<u8>, VaultError>(
        v.contents(images, r.chunks).subrange(r.offset, r.end),
    );
    assert forall|reply: Reply| #[trigger]
        honest(images[r.at], r.asks(), reply) implies RangeView::settles(
        r.on_reply(v, reply),
        v,
        images,
        expected,
        (n - 1) as nat,
    ) by {
        law_range_is_what_the_file_holds(r, v, images, reply);
        lemma_reply_advances(r, v, reply);
        match r.on_reply(v, reply) {
            StepView::Ask(next) => lemma_range_settles(next, v, images, (n - 1) as nat),
            StepView::Done(_) => {},
        }
    }
}

proof fn lemma_file_settles(file: ReadFileView, v: VaultView, images: Seq<Seq<u8>>, n: nat)
    requires
        file.range.tracks(v, images),
        file.range.offset == 0,
        file.range.end == v.contents(images, file.range.chunks).len(),
        n >= file.range.chunks.len() - file.range.next,
    ensures
        ReadFileView::settles(
            StepView::Ask(file),
            v,
            images,
            v.checked_contents(file.file_id, v.contents(images, file.range.chunks)),
            n,
        ),
    decreases n,
{
    let expected = v.checked_contents(file.file_id, v.contents(images, file.range.chunks));
    assert forall|reply: Reply| #[trigger]
        honest(images[file.range.at], file.range.asks(), reply) implies ReadFileView::settles(
        v.file_step(file.file_id, file.range.on_reply(v, reply)),
        v,
        images,
        expected,
        (n - 1) as nat,
    ) by {
        law_file_is_read(file, v, images, reply);
        lemma_reply_advances(file.range, v, reply);
        match v.file_step(file.file_id, file.range.on_reply(v, reply)) {
            StepView::Ask(next) => lemma_file_settles(next, v, images, (n - 1) as nat),
            StepView::Done(_) => {},
        }
    }
}

/// The bytes of the contents from `offset` on, `length` of them or as many as there are.
pub open spec fn range_of(contents: Seq<u8>, offset: int, length: int) -> Seq<u8> {
    let size = contents.len() as int;
    contents.subrange(
        if offset <= size {
            offset
        } else {
            size
        },
        if offset + length <= size {
            offset + length
        } else {
            size
        },
    )
}

/// What reading a range of a file with these contents gives: nothing where there is nothing, an
/// error where the range ends beyond the largest offset, and else the bytes of the range.
pub open spec fn range_outcome(contents: Seq<u8>, offset: u64, length: u64) -> Result<
    Seq<u8>,
    VaultError,
> {
    if offset < contents.len() && length > 0 && offset + length > u64::MAX {
        Err(VaultError::IntegerOverflow)
    } else {
        Ok(range_of(contents, offset as int, length as int))
    }
}

/// Ranges that meet join to one range.
pub proof fn law_adjacent_ranges_join(contents: Seq<u8>, offset: int, first: int, second: int)
    requires
        0 <= offset,
        0 <= first,
        0 <= second,
    ensures
        range_of(contents, offset, first) + range_of(contents, offset + first, second) == range_of(
            contents,
            offset,
            first + second,
        ),
{
    assert(range_of(contents, offset, first) + range_of(contents, offset + first, second)
        =~= range_of(contents, offset, first + second));
}

/// A range of a file that a vault holds is read as that range of its contents.
pub proof fn law_held_range_is_read(
    v: VaultView,
    images: Seq<Seq<u8>>,
    file_id: Seq<u8>,
    contents: Seq<u8>,
    offset: u64,
    length: u64,
)
    requires
        v.holds(images, file_id, contents),
    ensures
        RangeView::settles(
            v.range_start(file_id, offset, length),
            v,
            images,
            range_outcome(contents, offset, length),
            v.index.ordered(file_id)->Ok_0.len(),
        ),
{
    let chunks = v.index.ordered(file_id)->Ok_0;
    law_held_file_is_known(v, images, file_id, contents);
    lemma_contents_len(v, images, chunks);
    if offset + length <= u64::MAX {
        law_range_read_starts(v, images, file_id, offset, length);
        match v.range_start(file_id, offset, length) {
            StepView::Ask(next) => lemma_range_settles(next, v, images, chunks.len()),
            StepView::Done(_) => {},
        }
    } else if offset >= contents.len() || length == 0 {
        assert(range_of(contents, offset as int, length as int) =~= Seq::<u8>::empty());
    }
}

/// A file that a vault holds is read as its contents.
pub proof fn law_held_file_is_read(
    v: VaultView,
    images: Seq<Seq<u8>>,
    file_id: Seq<u8>,
    contents: Seq<u8>,
)
    requires
        v.holds(images, file_id, contents),
    ensures
        ReadFileView::settles(
            v.file_start(file_id),
            v,
            images,
            Ok(contents),
            v.index.ordered(file_id)->Ok_0.len(),
        ),
{
    let chunks = v.index.ordered(file_id)->Ok_0;
    law_held_file_is_known(v, images, file_id, contents);
    lemma_contents_len(v, images, chunks);
    law_file_read_starts(v, images, file_id);
    match v.file_start(file_id) {
        StepView::Ask(next) => lemma_file_settles(next, v, images, chunks.len()),
        StepView::Done(_) => {},
    }
}

/// Whatever was read of a file that has a completion marker is handed out as the whole file where
/// it has the hash that the marker gives, and refused as mismatching where it has not.
pub proof fn law_whole_file_is_held_against_its_hash(
    v: VaultView,
    file_id: Seq<u8>,
    contents: Seq<u8>,
)
    requires
        v.index.latest_complete(file_id) is Some,
    ensures
        v.file_step(file_id, StepView::Done(Ok(contents))) == StepView::<
            ReadFileView,
            Seq<u8>,
        >::Done(
            if blake2b256_digest(contents) == v.index.latest_complete(
                file_id,
            )->0.entry.full_content_hash {
                Ok(contents)
            } else {
                Err(VaultError::FileHashMismatch)
            },
        ),
{
}

/// Whatever the files answer, a whole file that is handed out has the hash that its completion
/// marker gives.
pub proof fn law_read_file_has_its_hash(
    v: VaultView,
    file_id: Seq<u8>,
    step: StepView<RangeView, Seq<u8>>,
    contents: Seq<u8>,
)
    requires
        v.file_step(file_id, step) == StepView::<ReadFileView, Seq<u8>>::Done(Ok(contents)),
    ensures
        v.index.latest_complete(file_id) matches Some(marker) && marker.entry.full_content_hash
            == blake2b256_digest(contents),
{
}

} // verus!
