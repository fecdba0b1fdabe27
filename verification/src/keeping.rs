//! A file from the first request of storing it to the last one of reading it.

use vstd::prelude::*;

use crate::blob::{BlobView, AEAD_FRAME_OVERHEAD};
use crate::contents::delivered;
use crate::error::VaultError;
use crate::history::{
    attached, law_deliveries_do_not_disturb, law_file_is_held_on, law_file_stays_the_same,
    law_held_file_is_read, law_held_range_is_read, other_attached, range_outcome, undisturbed,
    undisturbed_history,
};
use crate::plan::{
    law_piece_count, lemma_plan_shape, piece_sizes, split_chunk_size, split_plan, FilePlan,
};
use crate::storage::{after, honest, Reply, Step};
use crate::storing::{
    all_delivered, law_stored_file_is_there, law_storing_delivers, lists_nothing_of,
};
use crate::transfer::{ParcelView, PutFile, RangeView, ReadFileView};
use crate::vault::VaultView;

verus! {

/// A storing of a file from beginning to end: the operation at each request, the reply to each
/// request, the vault and its files before each request and after the last, and what came of it.
pub struct Storing {
    pub puts: Seq<PutFile>,
    pub replies: Seq<Reply>,
    pub vaults: Seq<VaultView>,
    pub images: Seq<Seq<Seq<u8>>>,
    pub result: Result<(), VaultError>,
}

impl Storing {
    /// What the operation made of the reply to its request with this number.
    pub open spec fn step(self, k: int) -> Step<PutFile, ()> {
        if k + 1 < self.puts.len() {
            Step::Ask(self.puts[k + 1])
        } else {
            Step::Done(self.result)
        }
    }

    /// The storing began as a vault begins it that has room for the file, every blob's file
    /// answered as it should, and the operation took every reply until it was over.
    pub open spec fn carried_out(
        self,
        start: VaultView,
        file_id: Seq<u8>,
        contents: Seq<u8>,
        plan: FilePlan,
    ) -> bool {
        let parcels = start.parcels(file_id, contents, plan);
        &&& start.file_plan(contents.len() as int).0 == Ok::<FilePlan, VaultError>(plan)
        &&& self.puts.len() > 0
        &&& self.replies.len() == self.puts.len()
        &&& self.vaults.len() == self.puts.len() + 1
        &&& self.images.len() == self.puts.len() + 1
        &&& self.vaults[0] == start.file_plan(contents.len() as int).1
        &&& parcels.len() > 0
        &&& self.puts[0].sends(parcels[0])
        &&& self.puts[0].queue() == parcels.skip(1)
        &&& forall|k: int|
            0 <= k < self.puts.len() ==> {
                let put = #[trigger] self.puts[k];
                let at = put.at as int;
                let images = self.images[k];
                &&& put.valid(self.vaults[k])
                &&& honest(images[at], put.operation.asks(), self.replies[k])
                &&& self.images[k + 1] == images.update(at, after(images[at], put.operation.asks()))
                &&& put.on_reply(self.vaults[k], self.replies[k], self.step(k), self.vaults[k + 1])
            }
    }

    /// Before the request with this number, so many of the parcels are delivered: the vault and the
    /// files went through these states, and the next parcel is on its way.
    spec fn stands(
        self,
        parcels: Seq<ParcelView>,
        k: int,
        done: int,
        vaults: Seq<VaultView>,
        images: Seq<Seq<Seq<u8>>>,
    ) -> bool {
        let put = self.puts[k];
        &&& 0 <= done < parcels.len()
        &&& all_delivered(parcels.take(done), vaults, images)
        &&& vaults[0] == self.vaults[0]
        &&& images[0] == self.images[0]
        &&& vaults.last() == self.vaults[k]
        &&& put.tracks(self.vaults[k], images.last(), self.images[k])
        &&& put.at == parcels[done].blob
        &&& put.operation.new_chunks() == parcels[done].chunks
        &&& put.operation.new_completes() == parcels[done].completed_files
        &&& put.queue() == parcels.skip(done + 1)
    }
}

/// Choosing where a file goes passes the turn on and changes nothing else.
pub proof fn law_planning_passes_the_turn(v: VaultView, len: int)
    ensures
        v.file_plan(len).1 == (VaultView { cursor: v.file_plan(len).1.cursor, ..v }),
{
    if v.config.split_files_across_blobs {
        let chunk_size = split_chunk_size(v.config);
        if chunk_size is Ok {
            lemma_split_passes_the_turn(v, piece_sizes(len, chunk_size->Ok_0));
        }
    }
}

proof fn lemma_split_passes_the_turn(v: VaultView, sizes: Seq<int>)
    ensures
        ({
            let now = split_plan(v, sizes).vault;
            now == (VaultView { cursor: now.cursor, ..v })
        }),
    decreases sizes.len(),
{
    if sizes.len() > 0 {
        lemma_split_passes_the_turn(v, sizes.drop_last());
    }
}

proof fn lemma_one_more(
    parcels: Seq<ParcelView>,
    done: int,
    vaults: Seq<VaultView>,
    images: Seq<Seq<Seq<u8>>>,
    now: VaultView,
    now_images: Seq<Seq<u8>>,
)
    requires
        0 <= done < parcels.len(),
        all_delivered(parcels.take(done), vaults, images),
        delivered(
            vaults.last(),
            images.last(),
            parcels[done].blob,
            parcels[done].chunks,
            parcels[done].completed_files,
            now,
            now_images,
        ),
    ensures
        all_delivered(parcels.take(done + 1), vaults.push(now), images.push(now_images)),
{
    let more = parcels.take(done + 1);
    let longer = vaults.push(now);
    let longer_images = images.push(now_images);
    assert forall|k: int| #![trigger more[k]] 0 <= k < more.len() implies delivered(
        longer[k],
        longer_images[k],
        more[k].blob,
        more[k].chunks,
        more[k].completed_files,
        longer[k + 1],
        longer_images[k + 1],
    ) by {
        if k < done {
            assert(parcels.take(done)[k] == more[k]);
            assert(longer[k] == vaults[k] && longer[k + 1] == vaults[k + 1]);
            assert(longer_images[k] == images[k] && longer_images[k + 1] == images[k + 1]);
        }
    }
}

proof fn lemma_storing_stands(
    s: Storing,
    start: VaultView,
    file_id: Seq<u8>,
    contents: Seq<u8>,
    plan: FilePlan,
    k: int,
) -> (r: (int, Seq<VaultView>, Seq<Seq<Seq<u8>>>))
    requires
        s.carried_out(start, file_id, contents, plan),
        start.sound(s.images[0]),
        0 <= k < s.puts.len(),
    ensures
        s.stands(start.parcels(file_id, contents, plan), k, r.0, r.1, r.2),
    decreases k,
{
    let parcels = start.parcels(file_id, contents, plan);
    law_planning_passes_the_turn(start, contents.len() as int);
    if k == 0 {
        let images = s.images[0];
        let at = s.puts[0].at as int;
        assert(s.puts[0].valid(s.vaults[0]));
        assert(s.vaults[0].sound(images));
        assert(images.update(at, images[at]) =~= images);
        assert(parcels.take(0).len() == 0);
        (0, seq![s.vaults[0]], seq![images])
    } else {
        let (done, vaults, images) = lemma_storing_stands(
            s,
            start,
            file_id,
            contents,
            plan,
            k - 1,
        );
        let put = s.puts[k - 1];
        let at = put.at as int;
        assert(put.valid(s.vaults[k - 1]));
        law_storing_delivers(
            put,
            s.vaults[k - 1],
            images.last(),
            s.images[k - 1],
            s.replies[k - 1],
            s.step(k - 1),
            s.vaults[k],
        );
        if s.vaults[k] == s.vaults[k - 1] && s.stands(parcels, k, done, vaults, images) {
            (done, vaults, images)
        } else {
            lemma_one_more(parcels, done, vaults, images, s.vaults[k], s.images[k]);
            assert(parcels.skip(done + 1).skip(1) =~= parcels.skip(done + 2));
            (done + 1, vaults.push(s.vaults[k]), images.push(s.images[k]))
        }
    }
}

/// How a storing ends: with every parcel delivered where it succeeded, and else with some of them.
proof fn lemma_storing_ends(
    s: Storing,
    start: VaultView,
    file_id: Seq<u8>,
    contents: Seq<u8>,
    plan: FilePlan,
) -> (r: (int, Seq<VaultView>, Seq<Seq<Seq<u8>>>))
    requires
        s.carried_out(start, file_id, contents, plan),
        start.sound(s.images[0]),
    ensures
        0 <= r.0 <= start.parcels(file_id, contents, plan).len(),
        s.result is Ok ==> r.0 == start.parcels(file_id, contents, plan).len(),
        all_delivered(start.parcels(file_id, contents, plan).take(r.0), r.1, r.2),
        r.1[0] == s.vaults[0],
        r.2[0] == s.images[0],
        r.1.last() == s.vaults.last(),
        r.2.last() == s.images.last(),
{
    let parcels = start.parcels(file_id, contents, plan);
    let k = s.puts.len() - 1;
    let (done, vaults, images) = lemma_storing_stands(s, start, file_id, contents, plan, k);
    assert(s.puts[k].valid(s.vaults[k]));
    law_storing_delivers(
        s.puts[k],
        s.vaults[k],
        images.last(),
        s.images[k],
        s.replies[k],
        s.step(k),
        s.vaults[k + 1],
    );
    if s.result is Ok {
        assert(parcels.skip(done + 1).len() == 0);
        lemma_one_more(parcels, done, vaults, images, s.vaults[k + 1], s.images[k + 1]);
        (done + 1, vaults.push(s.vaults[k + 1]), images.push(s.images[k + 1]))
    } else {
        (done, vaults, images)
    }
}

/// A file that was stored is held.
///
/// The file was lacking when the storing began: neither what the vault knew nor any of its blobs'
/// files held a chunk of it, or a marker that counts as many chunks. What the vault knew of other
/// files does not matter, nor does how the file is cut and where its pieces go.
pub proof fn law_stored_file_is_held(
    s: Storing,
    start: VaultView,
    file_id: Seq<u8>,
    contents: Seq<u8>,
    plan: FilePlan,
)
    requires
        s.carried_out(start, file_id, contents, plan),
        s.result is Ok,
        start.lacks(s.images[0], file_id, plan.blobs.len() as int),
        contents.len() + AEAD_FRAME_OVERHEAD <= usize::MAX,
    ensures
        s.vaults.last().holds(s.images.last(), file_id, contents),
        s.vaults.last().index.ordered(file_id)->Ok_0.len() == plan.blobs.len(),
        start.consistent(s.images[0]) ==> s.vaults.last().consistent(s.images.last()),
{
    let parcels = start.parcels(file_id, contents, plan);
    let (done, vaults, images) = lemma_storing_ends(s, start, file_id, contents, plan);
    law_planning_passes_the_turn(start, contents.len() as int);
    assert(parcels.take(done) =~= parcels);
    lemma_plan_shape(start, contents, plan);
    law_piece_count(contents.len() as int, plan.chunk_size);
    let begun = s.vaults[0];
    assert(begun.parcels(file_id, contents, plan) == parcels);
    assert(begun.lacks(s.images[0], file_id, plan.blobs.len() as int));
    if start.consistent(s.images[0]) {
        assert forall|i: int| 0 <= i < begun.blobs.len() implies #[trigger] begun.knows(
            i,
            s.images[0][i],
        ) by {
            assert(start.knows(i, s.images[0][i]));
        }
    }
    law_stored_file_is_there(file_id, contents, plan, vaults, images);
}

/// The vault and its files went through these states from one pair to another, and no chunk of the
/// file came or went, and no marker that counts enough.
pub open spec fn leads(
    vaults: Seq<VaultView>,
    through: Seq<Seq<Seq<u8>>>,
    v: VaultView,
    images: Seq<Seq<u8>>,
    now: VaultView,
    now_images: Seq<Seq<u8>>,
    file_id: Seq<u8>,
    count: int,
) -> bool {
    &&& undisturbed_history(vaults, through, file_id, count)
    &&& vaults.len() > 0
    &&& vaults[0] == v
    &&& through[0] == images
    &&& vaults.last() == now
    &&& through.last() == now_images
}

/// What lies between the two states does not touch the file.
pub open spec fn untouched(
    v: VaultView,
    images: Seq<Seq<u8>>,
    now: VaultView,
    now_images: Seq<Seq<u8>>,
    file_id: Seq<u8>,
    count: int,
) -> bool {
    exists|vaults: Seq<VaultView>, through: Seq<Seq<Seq<u8>>>| #[trigger]
        leads(vaults, through, v, images, now, now_images, file_id, count)
}

/// A single step that does not touch the file is such a stretch.
pub proof fn law_step_is_untouched(
    v: VaultView,
    images: Seq<Seq<u8>>,
    now: VaultView,
    now_images: Seq<Seq<u8>>,
    file_id: Seq<u8>,
    count: int,
)
    requires
        undisturbed(v, images, now, now_images, file_id, count),
    ensures
        untouched(v, images, now, now_images, file_id, count),
{
    assert(leads(
        seq![v, now],
        seq![images, now_images],
        v,
        images,
        now,
        now_images,
        file_id,
        count,
    ));
}

/// Stretches that do not touch the file join.
pub proof fn law_untouched_joins(
    first: VaultView,
    first_images: Seq<Seq<u8>>,
    v: VaultView,
    images: Seq<Seq<u8>>,
    now: VaultView,
    now_images: Seq<Seq<u8>>,
    file_id: Seq<u8>,
    count: int,
)
    requires
        untouched(first, first_images, v, images, file_id, count),
        untouched(v, images, now, now_images, file_id, count),
    ensures
        untouched(first, first_images, now, now_images, file_id, count),
{
    let (a, a_images) = choose|vaults: Seq<VaultView>, through: Seq<Seq<Seq<u8>>>| #[trigger]
        leads(vaults, through, first, first_images, v, images, file_id, count);
    let (b, b_images) = choose|vaults: Seq<VaultView>, through: Seq<Seq<Seq<u8>>>| #[trigger]
        leads(vaults, through, v, images, now, now_images, file_id, count);
    let n = a.len() as int;
    let all = a + b.skip(1);
    let all_images = a_images + b_images.skip(1);
    assert forall|k: int| #![trigger all[k]] 0 < k < all.len() implies undisturbed(
        all[k - 1],
        all_images[k - 1],
        all[k],
        all_images[k],
        file_id,
        count,
    ) by {
        if k < n {
            assert(all[k] == a[k]);
            assert(all[k - 1] == a[k - 1]);
        } else {
            let j = k - n + 1;
            assert(all[k] == b[j]);
            assert(all_images[k] == b_images[j]);
            assert(all[k - 1] == b[j - 1]);
            assert(all_images[k - 1] == b_images[j - 1]);
        }
    }
    assert(leads(
        all,
        all_images,
        first,
        first_images,
        now,
        now_images,
        file_id,
        count,
    ));
}

/// Where choosing passes the turn on and the file is refused after all, no file is touched.
pub proof fn law_planning_touches_nothing(
    v: VaultView,
    images: Seq<Seq<u8>>,
    len: int,
    file_id: Seq<u8>,
    count: int,
)
    ensures
        untouched(v, images, v.file_plan(len).1, images, file_id, count),
{
    law_planning_passes_the_turn(v, len);
    law_step_is_untouched(v, images, v.file_plan(len).1, images, file_id, count);
}

/// Storing a file does not touch another one, whether or not it succeeds.
pub proof fn law_storing_touches_no_other_file(
    s: Storing,
    start: VaultView,
    stored: Seq<u8>,
    contents: Seq<u8>,
    plan: FilePlan,
    file_id: Seq<u8>,
    count: int,
)
    requires
        s.carried_out(start, stored, contents, plan),
        start.sound(s.images[0]),
        stored != file_id,
    ensures
        untouched(start, s.images[0], s.vaults.last(), s.images.last(), file_id, count),
{
    let parcels = start.parcels(stored, contents, plan);
    let (done, vaults, images) = lemma_storing_ends(s, start, stored, contents, plan);
    lemma_plan_shape(start, contents, plan);
    law_deliveries_do_not_disturb(
        stored,
        contents,
        plan,
        start.blobs.len() as int,
        done,
        vaults,
        images,
        file_id,
        count,
    );
    law_planning_touches_nothing(start, s.images[0], contents.len() as int, file_id, count);
    assert(leads(
        vaults,
        images,
        s.vaults[0],
        s.images[0],
        s.vaults.last(),
        s.images.last(),
        file_id,
        count,
    ));
    law_untouched_joins(
        start,
        s.images[0],
        s.vaults[0],
        s.images[0],
        s.vaults.last(),
        s.images.last(),
        file_id,
        count,
    );
}

/// Attaching a blob that lists no chunk of a file and no marker that counts enough does not touch
/// the file.
pub proof fn law_attaching_touches_no_other_file(
    v: VaultView,
    images: Seq<Seq<u8>>,
    b: BlobView,
    image: Seq<u8>,
    now: VaultView,
    now_images: Seq<Seq<u8>>,
    file_id: Seq<u8>,
    count: int,
)
    requires
        attached(v, images, b, image, now, now_images),
        lists_nothing_of(b.entries(image), file_id, count),
    ensures
        untouched(v, images, now, now_images, file_id, count),
{
    assert(other_attached(v, images, b, image, now, now_images, file_id, count));
    law_step_is_untouched(v, images, now, now_images, file_id, count);
}

/// What was put into a vault is what comes out of it, at once and later on.
///
/// A file that was lacking was stored. For as long as it is not touched, reading it gives its
/// contents, and reading a range of it gives that range of them, each within as many requests as
/// the file has chunks. Storing other files, by this vault or by others, reading indexes again, and
/// attaching blobs that list no chunk of the file and no marker that counts as many chunks do not
/// touch it.
pub proof fn law_stored_file_reads_back(
    s: Storing,
    start: VaultView,
    file_id: Seq<u8>,
    contents: Seq<u8>,
    plan: FilePlan,
    now: VaultView,
    now_images: Seq<Seq<u8>>,
    offset: u64,
    length: u64,
)
    requires
        s.carried_out(start, file_id, contents, plan),
        s.result is Ok,
        start.lacks(s.images[0], file_id, plan.blobs.len() as int),
        contents.len() + AEAD_FRAME_OVERHEAD <= usize::MAX,
        untouched(
            s.vaults.last(),
            s.images.last(),
            now,
            now_images,
            file_id,
            plan.blobs.len() as int,
        ),
    ensures
        now.holds(now_images, file_id, contents),
        ReadFileView::settles(
            now.file_start(file_id),
            now,
            now_images,
            Ok(contents),
            plan.blobs.len(),
        ),
        RangeView::settles(
            now.range_start(file_id, offset, length),
            now,
            now_images,
            range_outcome(contents, offset, length),
            plan.blobs.len(),
        ),
{
    let count = plan.blobs.len() as int;
    law_stored_file_is_held(s, start, file_id, contents, plan);
    let (vaults, through) = choose|vaults: Seq<VaultView>, through: Seq<Seq<Seq<u8>>>| #[trigger]
        leads(
            vaults,
            through,
            s.vaults.last(),
            s.images.last(),
            now,
            now_images,
            file_id,
            count,
        );
    law_file_is_held_on(vaults, through, file_id, contents, vaults.len() - 1);
    law_file_stays_the_same(vaults, through, file_id, count, vaults.len() - 1);
    law_held_file_is_read(now, now_images, file_id, contents);
    law_held_range_is_read(now, now_images, file_id, contents, offset, length);
}

} // verus!
