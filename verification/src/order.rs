//! Stable ordering by an integer key.

use vstd::prelude::*;

verus! {

/// Position `x` put into an ordered list of positions, behind every position whose key is not
/// greater.
pub open spec fn insert_position(keys: Seq<u64>, order: Seq<int>, x: int) -> Seq<int>
    decreases order.len(),
{
    if order.len() == 0 || keys[order.last()] <= keys[x] {
        order.push(x)
    } else {
        insert_position(keys, order.drop_last(), x).push(order.last())
    }
}

/// The first `n` positions, ordered by their keys.
pub open spec fn order_of_first(keys: Seq<u64>, n: nat) -> Seq<int>
    decreases n,
{
    if n == 0 {
        Seq::empty()
    } else {
        insert_position(keys, order_of_first(keys, (n - 1) as nat), n - 1)
    }
}

/// The positions in the order of their keys; equal keys keep the order of their positions.
pub open spec fn order_of(keys: Seq<u64>) -> Seq<int> {
    order_of_first(keys, keys.len())
}

/// The positions that a vector holds.
pub open spec fn positions(order: Seq<usize>) -> Seq<int> {
    Seq::new(order.len(), |i: int| order[i] as int)
}

/// Orders positions by their keys, stably.
pub fn stable_order(keys: &Vec<u64>) -> (r: Vec<usize>)
    ensures
        positions(r@) == order_of(keys@),
{
    let mut order: Vec<usize> = Vec::with_capacity(keys.len());
    let mut n: usize = 0;
    assert(positions(order@) =~= order_of_first(keys@, 0));
    while n < keys.len()
        invariant
            n <= keys@.len(),
            order@.len() == n,
            forall|i: int| 0 <= i < n ==> (#[trigger] order@[i]) < n,
            positions(order@) == order_of_first(keys@, n as nat),
        decreases keys@.len() - n,
    {
        let mut pos: usize = n;
        let ghost before = positions(order@);
        assert(before.take(pos as int) =~= before);
        assert(insert_position(keys@, before, n as int) =~= insert_position(
            keys@,
            before.take(pos as int),
            n as int,
        ) + before.skip(pos as int));
        while pos > 0 && keys[order[pos - 1]] > keys[n]
            invariant
                pos <= n < keys@.len(),
                order@.len() == n,
                before == positions(order@),
                forall|i: int| 0 <= i < n ==> (#[trigger] order@[i]) < n,
                insert_position(keys@, before, n as int) == insert_position(
                    keys@,
                    before.take(pos as int),
                    n as int,
                ) + before.skip(pos as int),
            decreases pos,
        {
            proof {
                let here = before.take(pos as int);
                assert(here.drop_last() =~= before.take(pos - 1));
                assert(here.last() == order@[pos - 1] as int);
                assert(insert_position(keys@, here, n as int) + before.skip(pos as int)
                    =~= insert_position(keys@, before.take(pos - 1), n as int) + before.skip(
                    pos - 1,
                ));
            }
            pos = pos - 1;
        }
        proof {
            let here = before.take(pos as int);
            assert(here.len() > 0 ==> here.last() == order@[pos - 1] as int);
            assert(insert_position(keys@, here, n as int) == here.push(n as int));
        }
        order.insert(pos, n);
        proof {
            assert(positions(order@) =~= before.take(pos as int).push(n as int) + before.skip(
                pos as int,
            ));
            assert forall|i: int| 0 <= i < n + 1 implies (#[trigger] order@[i]) < n + 1 by {
                if i < pos {
                    assert(positions(order@)[i] == before[i]);
                } else if i > pos {
                    assert(positions(order@)[i] == before[i - 1]);
                }
            }
        }
        n += 1;
    }
    order
}

/// `a` comes before `b`: its key is smaller, or the keys are equal and it stands in front.
pub open spec fn precedes(keys: Seq<u64>, a: int, b: int) -> bool {
    keys[a] < keys[b] || (keys[a] == keys[b] && a < b)
}

/// The order holds every position once, and each comes before those behind it.
pub proof fn law_order_is_stable(keys: Seq<u64>)
    ensures
        order_of(keys).len() == keys.len(),
        forall|i: int| 0 <= i < keys.len() ==> 0 <= #[trigger] order_of(keys)[i] < keys.len(),
        forall|i: int, j: int|
            0 <= i < j < keys.len() ==> precedes(
                keys,
                #[trigger] order_of(keys)[i],
                #[trigger] order_of(keys)[j],
            ),
        forall|x: int| 0 <= x < keys.len() ==> #[trigger] order_of(keys).contains(x),
{
    lemma_order_of_first(keys, keys.len());
}

proof fn lemma_order_of_first(keys: Seq<u64>, n: nat)
    requires
        n <= keys.len(),
    ensures
        order_of_first(keys, n).len() == n,
        forall|i: int| 0 <= i < n ==> 0 <= #[trigger] order_of_first(keys, n)[i] < n,
        forall|i: int, j: int|
            0 <= i < j < n ==> precedes(
                keys,
                #[trigger] order_of_first(keys, n)[i],
                #[trigger] order_of_first(keys, n)[j],
            ),
        forall|x: int| 0 <= x < n ==> #[trigger] order_of_first(keys, n).contains(x),
    decreases n,
{
    if n > 0 {
        let m = (n - 1) as nat;
        lemma_order_of_first(keys, m);
        let order = order_of_first(keys, m);
        lemma_insert_position(keys, order, m as int);
        let next = order_of_first(keys, n);
        assert forall|x: int| 0 <= x < n implies #[trigger] next.contains(x) by {
            if x < m {
                assert(order.contains(x));
            }
        }
        assert forall|i: int| 0 <= i < n implies 0 <= #[trigger] next[i] < n by {
            assert(next.contains(next[i]));
        }
    }
}

proof fn lemma_insert_position(keys: Seq<u64>, order: Seq<int>, x: int)
    requires
        0 <= x < keys.len(),
        forall|i: int| 0 <= i < order.len() ==> 0 <= #[trigger] order[i] < x,
        forall|i: int, j: int|
            0 <= i < j < order.len() ==> precedes(keys, #[trigger] order[i], #[trigger] order[j]),
    ensures
        insert_position(keys, order, x).len() == order.len() + 1,
        forall|y: int|
            #[trigger] insert_position(keys, order, x).contains(y) <==> y == x || order.contains(y),
        forall|i: int, j: int|
            0 <= i < j < order.len() + 1 ==> precedes(
                keys,
                #[trigger] insert_position(keys, order, x)[i],
                #[trigger] insert_position(keys, order, x)[j],
            ),
    decreases order.len(),
{
    let out = insert_position(keys, order, x);
    if order.len() == 0 || keys[order.last()] <= keys[x] {
        assert(out == order.push(x));
        assert forall|y: int| #[trigger] out.contains(y) <==> y == x || order.contains(y) by {
            if y == x {
                assert(out[order.len() as int] == x);
            }
            if order.contains(y) {
                let i = choose|i: int| 0 <= i < order.len() && order[i] == y;
                assert(out[i] == y);
            }
        }
        assert forall|i: int, j: int| 0 <= i < j < order.len() + 1 implies precedes(
            keys,
            #[trigger] out[i],
            #[trigger] out[j],
        ) by {
            if j == order.len() {
                let last = order.len() - 1;
                assert(order[last] == order.last());
                if i < last {
                    assert(precedes(keys, order[i], order[last]));
                }
            }
        }
    } else {
        let front = order.drop_last();
        assert forall|i: int| 0 <= i < front.len() implies 0 <= #[trigger] front[i] < x by {
            assert(front[i] == order[i]);
        }
        assert forall|i: int, j: int| 0 <= i < j < front.len() implies precedes(
            keys,
            #[trigger] front[i],
            #[trigger] front[j],
        ) by {
            assert(front[i] == order[i] && front[j] == order[j]);
        }
        lemma_insert_position(keys, front, x);
        let inner = insert_position(keys, front, x);
        assert(out == inner.push(order.last()));
        let last = order.len() - 1;
        assert forall|y: int| #[trigger] out.contains(y) <==> y == x || order.contains(y) by {
            assert(inner.contains(y) <==> y == x || front.contains(y));
            if order.contains(y) {
                let i = choose|i: int| 0 <= i < order.len() && order[i] == y;
                if i < last {
                    assert(front[i] == y);
                    assert(inner.contains(y));
                } else {
                    assert(out[inner.len() as int] == y);
                }
            }
            if inner.contains(y) {
                let i = choose|i: int| 0 <= i < inner.len() && inner[i] == y;
                assert(out[i] == y);
            }
            if out.contains(y) {
                let i = choose|i: int| 0 <= i < out.len() && out[i] == y;
                if i < inner.len() {
                    assert(inner[i] == y);
                } else {
                    assert(order[last] == y);
                }
            }
            if front.contains(y) {
                let i = choose|i: int| 0 <= i < front.len() && front[i] == y;
                assert(order[i] == y);
            }
        }
        assert forall|i: int, j: int| 0 <= i < j < order.len() + 1 implies precedes(
            keys,
            #[trigger] out[i],
            #[trigger] out[j],
        ) by {
            if j == inner.len() {
                assert(inner.contains(inner[i]));
                if out[i] != x {
                    let k = choose|k: int| 0 <= k < front.len() && front[k] == out[i];
                    assert(precedes(keys, order[k], order[last]));
                }
            }
        }
    }
}

} // verus!
