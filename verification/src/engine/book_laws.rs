//! Facts about the abstract book that the engine relies on: which stored
//! orders rest where, and how backend operations move them.
use vstd::prelude::*;
use crate::book::{book_wf, is_queued, keys_qty, pool_qty, LevelModel};
use crate::orders::{OrderData, RestingOrder};
use crate::sbe::side::Side;

verus! {

/// A stored order the engine can hold: it is a buy or a sell, its filled
/// and open quantities add up within `u64`, an iceberg shows a positive
/// quantity of a positive open quantity.
pub open spec fn order_ok(d: OrderData) -> bool {
    &&& d.side == Side::buy || d.side == Side::sell
    &&& d.filled_qty.0 + d.remaining_qty.0 <= u64::MAX
    &&& d.spec_is_iceberg() ==> d.remaining_qty.0 > 0 && d.visible_qty.0 > 0
}

/// Every stored order other than `x` is an acceptable order queued at its
/// own level.
pub open spec fn resting_ok_but<OI, LI>(
    pool: Map<OI, RestingOrder<LI>>,
    levels: Map<LI, LevelModel<OI>>,
    x: Option<OI>,
) -> bool {
    forall|i: OI|
        #[trigger] pool.contains_key(i) && x != Some(i) ==> order_ok(pool[i].data) && levels.contains_key(
            pool[i].level_idx,
        ) && levels[pool[i].level_idx].queue.contains(i)
}

/// Every stored order is an acceptable order queued at its own level.
pub open spec fn resting_ok<OI, LI>(pool: Map<OI, RestingOrder<LI>>, levels: Map<LI, LevelModel<OI>>) -> bool {
    resting_ok_but(pool, levels, None)
}

/// Levels that keep every queued order of `levels` (and maybe more) keep
/// every stored order resting.
pub proof fn lemma_resting_grow<OI, LI>(
    pool: Map<OI, RestingOrder<LI>>,
    levels: Map<LI, LevelModel<OI>>,
    levels2: Map<LI, LevelModel<OI>>,
    x: Option<OI>,
)
    requires
        resting_ok_but(pool, levels, x),
        forall|l: LI| #[trigger] levels.contains_key(l) ==> levels2.contains_key(l),
        forall|l: LI, o: OI| levels.contains_key(l) && #[trigger] levels[l].queue.contains(o) ==> #[trigger] levels2[l].queue.contains(o),
    ensures
        resting_ok_but(pool, levels2, x),
{
    assert forall|i: OI| #[trigger] pool.contains_key(i) && x != Some(i) implies order_ok(pool[i].data) && levels2.contains_key(
        pool[i].level_idx,
    ) && levels2[pool[i].level_idx].queue.contains(i) by {
        assert(levels[pool[i].level_idx].queue.contains(i));
    }
}

/// The order at the front of a level, once popped, is queued nowhere, and
/// every other stored order still rests.
pub proof fn lemma_after_pop<OI, LI>(
    pool: Map<OI, RestingOrder<LI>>,
    levels: Map<LI, LevelModel<OI>>,
    ids: Map<u64, OI>,
    levels2: Map<LI, LevelModel<OI>>,
    l: LI,
)
    requires
        book_wf(pool, levels, ids),
        resting_ok(pool, levels),
        levels.contains_key(l),
        levels[l].queue.len() > 0,
        levels2 == levels.insert(l, LevelModel { queue: levels[l].queue.drop_first(), ..levels2[l] }),
    ensures
        !is_queued(levels2, levels[l].queue[0]),
        resting_ok_but(pool, levels2, Some(levels[l].queue[0])),
        pool.contains_key(levels[l].queue[0]),
        pool[levels[l].queue[0]].level_idx == l,
{
    let m = levels[l].queue[0];
    assert(levels[l].queue[0] == m);
    if is_queued(levels2, m) {
        let (l2, k) = choose|l2: LI, k: int|
            #![trigger levels2[l2].queue[k]]
            levels2.contains_key(l2) && 0 <= k < levels2[l2].queue.len() && levels2[l2].queue[k] == m;
        if l2 == l {
            assert(levels[l].queue[k + 1] == m);
        } else {
            assert(levels[l2].queue[k] == m);
        }
    }
    assert forall|i: OI| #[trigger] pool.contains_key(i) && Some(m) != Some(i) implies order_ok(pool[i].data)
        && levels2.contains_key(pool[i].level_idx) && levels2[pool[i].level_idx].queue.contains(i) by {
        let li = pool[i].level_idx;
        assert(levels[li].queue.contains(i));
        if li == l {
            let k = levels[l].queue.index_of(i);
            assert(levels[l].queue[k] == i);
            assert(k != 0);
            assert(levels2[l].queue[k - 1] == i);
        }
    }
}

/// Removing a stored order that is queued nowhere keeps the others resting.
pub proof fn lemma_after_remove<OI, LI>(
    pool: Map<OI, RestingOrder<LI>>,
    levels: Map<LI, LevelModel<OI>>,
    x: OI,
)
    requires
        resting_ok_but(pool, levels, Some(x)),
    ensures
        resting_ok(pool.remove(x), levels),
{
}

/// A level with nothing queued holds no stored order, so dropping it keeps
/// every stored order resting.
pub proof fn lemma_after_drop_level<OI, LI>(
    pool: Map<OI, RestingOrder<LI>>,
    levels: Map<LI, LevelModel<OI>>,
    l: LI,
)
    requires
        resting_ok(pool, levels),
        levels.contains_key(l),
        levels[l].queue.len() == 0,
    ensures
        resting_ok(pool, levels.remove(l)),
{
    assert forall|i: OI| #[trigger] pool.contains_key(i) && None::<OI> != Some(i) implies order_ok(pool[i].data)
        && levels.remove(l).contains_key(pool[i].level_idx) && levels.remove(l)[pool[i].level_idx].queue.contains(i) by {
        assert(levels[pool[i].level_idx].queue.contains(i));
    }
}

/// A newly stored acceptable order queued at its level (at either end)
/// makes every stored order rest again.
pub proof fn lemma_after_push<OI, LI>(
    pool: Map<OI, RestingOrder<LI>>,
    levels: Map<LI, LevelModel<OI>>,
    levels2: Map<LI, LevelModel<OI>>,
    l: LI,
    i: OI,
    newq: Seq<OI>,
)
    requires
        resting_ok_but(pool, levels, Some(i)),
        pool.contains_key(i),
        pool[i].level_idx == l,
        order_ok(pool[i].data),
        levels.contains_key(l),
        newq.contains(i),
        forall|o: OI| #[trigger] levels[l].queue.contains(o) ==> newq.contains(o),
        levels2 == levels.insert(l, LevelModel { queue: newq, ..levels2[l] }),
    ensures
        resting_ok(pool, levels2),
{
    assert forall|j: OI| #[trigger] pool.contains_key(j) && None::<OI> != Some(j) implies order_ok(pool[j].data)
        && levels2.contains_key(pool[j].level_idx) && levels2[pool[j].level_idx].queue.contains(j) by {
        if j != i {
            assert(levels[pool[j].level_idx].queue.contains(j));
        }
    }
}

/// Both ends of a level: pushing at the back or the front keeps its queue.
pub proof fn lemma_push_keeps<OI>(q: Seq<OI>, i: OI)
    ensures
        q.push(i).contains(i),
        (seq![i] + q).contains(i),
        forall|o: OI| #[trigger] q.contains(o) ==> q.push(i).contains(o) && (seq![i] + q).contains(o),
{
    assert(q.push(i)[q.len() as int] == i);
    assert((seq![i] + q)[0] == i);
    assert forall|o: OI| #[trigger] q.contains(o) implies q.push(i).contains(o) && (seq![i] + q).contains(o) by {
        let k = q.index_of(o);
        assert(q.push(i)[k] == o);
        assert((seq![i] + q)[k + 1] == o);
    }
}

/// The parked orders seen as stored orders, for summing their quantities.
pub open spec fn as_resting(store: Map<usize, OrderData>) -> Map<usize, RestingOrder<usize>> {
    store.map_values(|d: OrderData| RestingOrder { data: d, level_idx: 0usize })
}

/// Sum of the open quantities of the parked orders.
pub open spec fn parked_qty(store: Map<usize, OrderData>) -> int {
    pool_qty(as_resting(store))
}

/// Parking an order adds its open quantity to the parked sum.
pub proof fn lemma_parked_insert(store: Map<usize, OrderData>, k: usize, v: OrderData)
    requires
        store.dom().finite(),
        !store.contains_key(k),
    ensures
        parked_qty(store.insert(k, v)) == parked_qty(store) + v.remaining_qty.0,
{
    assert(as_resting(store.insert(k, v)) =~= as_resting(store).insert(k, RestingOrder { data: v, level_idx: 0usize }));
    assert(as_resting(store).dom() =~= store.dom());
    crate::book::lemma_pool_qty_insert(as_resting(store), k, RestingOrder { data: v, level_idx: 0usize });
}

/// Taking a parked order out subtracts its open quantity from the parked sum.
pub proof fn lemma_parked_remove(store: Map<usize, OrderData>, k: usize)
    requires
        store.dom().finite(),
        store.contains_key(k),
    ensures
        parked_qty(store.remove(k)) == parked_qty(store) - store[k].remaining_qty.0,
{
    assert(as_resting(store.remove(k)) =~= as_resting(store).remove(k));
    assert(as_resting(store).dom() =~= store.dom());
    crate::book::lemma_pool_qty_remove(as_resting(store), k);
}

/// Sums of open quantities are never negative.
pub proof fn lemma_qty_nonneg<OI, LI>(pool: Map<OI, RestingOrder<LI>>, store: Map<usize, OrderData>)
    requires
        pool.dom().finite(),
        store.dom().finite(),
    ensures
        pool_qty(pool) >= 0,
        parked_qty(store) >= 0,
{
    crate::book::lemma_keys_qty_nonneg(pool, pool.dom());
    assert(as_resting(store).dom() =~= store.dom());
    crate::book::lemma_keys_qty_nonneg(as_resting(store), as_resting(store).dom());
}

/// An order taken out of its level's queue is queued nowhere, and every
/// other stored order still rests.
pub proof fn lemma_after_unqueue<OI, LI>(
    pool: Map<OI, RestingOrder<LI>>,
    levels: Map<LI, LevelModel<OI>>,
    ids: Map<u64, OI>,
    levels2: Map<LI, LevelModel<OI>>,
    l: LI,
    i: OI,
)
    requires
        book_wf(pool, levels, ids),
        resting_ok(pool, levels),
        levels.contains_key(l),
        levels[l].queue.contains(i),
        levels2 == levels.insert(
            l,
            LevelModel { queue: levels[l].queue.remove(levels[l].queue.index_of(i)), ..levels2[l] },
        ),
    ensures
        !is_queued(levels2, i),
        resting_ok_but(pool, levels2, Some(i)),
{
    let q = levels[l].queue;
    let k = q.index_of(i);
    assert(q[k] == i);
    if is_queued(levels2, i) {
        let (l2, j) = choose|l2: LI, j: int|
            #![trigger levels2[l2].queue[j]]
            levels2.contains_key(l2) && 0 <= j < levels2[l2].queue.len() && levels2[l2].queue[j] == i;
        if l2 == l {
            if j < k {
                assert(q[j] == i);
            } else {
                assert(q[j + 1] == i);
            }
        } else {
            assert(levels[l2].queue[j] == i);
        }
    }
    assert forall|o: OI| #[trigger] pool.contains_key(o) && Some(i) != Some(o) implies order_ok(pool[o].data)
        && levels2.contains_key(pool[o].level_idx) && levels2[pool[o].level_idx].queue.contains(o) by {
        let lo = pool[o].level_idx;
        assert(levels[lo].queue.contains(o));
        if lo == l {
            let m = q.index_of(o);
            assert(q[m] == o);
            assert(m != k);
            if m < k {
                assert(levels2[l].queue[m] == o);
            } else {
                assert(levels2[l].queue[m - 1] == o);
            }
        }
    }
}

} // verus!
