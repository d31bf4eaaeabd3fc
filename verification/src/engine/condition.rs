//! Stop and take-profit orders waiting for the last trade price to reach
//! their trigger price.
//!
//! Parked orders live in a slab; each has a node in a second slab, and the
//! nodes of the orders with one trigger price form a doubly linked list
//! whose head one of four ordered maps holds under that price.
use vstd::prelude::*;
use std::collections::BTreeMap;
use rustc_hash::FxHashMap;
use slab::Slab;
use crate::orders::OrderData;
use crate::sbe::side::Side;
use crate::types::Price;
use crate::collections::{first_key, fx_clear, fx_insert, fx_remove, fx_with_capacity, last_key, no_keys};

verus! {

broadcast use {vstd::laws_cmp::group_laws_cmp, vstd::std_specs::btree::group_btree_axioms};

/// Node of a trigger list.
#[derive(Debug, Clone, Copy, PartialEq, Eq, Structural)]
pub struct TriggerNode {
    /// Key of the parked order in the order slab.
    pub order_idx: usize,
    /// Previous node of the list, or [`NULL_NODE`].
    pub prev: u32,
    /// Next node of the list, or [`NULL_NODE`].
    pub next: u32,
    /// Trigger map the list was filed in when the order was parked (see
    /// [`pool_of`]).
    pub kind: u8,
    /// Trigger price the list is filed under.
    pub price: u64,
}

/// Link value that stands for no node.
pub const NULL_NODE: u32 = 0xffff_ffffu32;

/// A slab holding no order.
pub open spec fn no_orders() -> Map<usize, OrderData> {
    Map::empty()
}

/// A slab holding no node.
pub open spec fn no_nodes() -> Map<usize, TriggerNode> {
    Map::empty()
}

/// A map with no pending order.
pub open spec fn no_pending() -> Map<u64, (usize, u32)> {
    no_keys()
}

/// What the order slab of a manager holds, by key.
pub uninterp spec fn order_store_contents(s: Slab<OrderData>) -> Map<usize, OrderData>;

/// What the node slab of a manager holds, by key.
pub uninterp spec fn node_pool_contents(s: Slab<TriggerNode>) -> Map<usize, TriggerNode>;

/// Number of slots (occupied or vacant) of the node slab; every key is below it.
pub uninterp spec fn node_pool_slots(s: Slab<TriggerNode>) -> nat;

/// `Slab::with_capacity`: an empty slab.
#[verifier::external_body]
fn order_store_with_capacity(capacity: usize) -> (r: Slab<OrderData>)
    ensures
        order_store_contents(r) == no_orders(),
{
    Slab::with_capacity(capacity)
}

/// `Slab::insert`: stores `v` under a key that was free, and returns the key.
#[verifier::external_body]
fn order_store_insert(s: &mut Slab<OrderData>, v: OrderData) -> (k: usize)
    ensures
        !order_store_contents(*old(s)).contains_key(k),
        order_store_contents(*final(s)) == order_store_contents(*old(s)).insert(k, v),
{
    s.insert(v)
}

/// `Slab::try_remove`: takes out the value under `k`, if there is one.
#[verifier::external_body]
pub(crate) fn order_store_try_remove(s: &mut Slab<OrderData>, k: usize) -> (r: Option<OrderData>)
    ensures
        order_store_contents(*old(s)).contains_key(k) ==> r == Some(order_store_contents(*old(s))[k])
            && order_store_contents(*final(s)) == order_store_contents(*old(s)).remove(k),
        !order_store_contents(*old(s)).contains_key(k) ==> r is None && order_store_contents(*final(s))
            == order_store_contents(*old(s)),
{
    s.try_remove(k)
}

/// `Slab::len`: the number of stored values.
#[verifier::external_body]
fn order_store_len(s: &Slab<OrderData>) -> (r: usize)
    ensures
        r == order_store_contents(*s).len(),
{
    s.len()
}

/// `Slab::is_empty`: whether nothing is stored.
#[verifier::external_body]
fn order_store_is_empty(s: &Slab<OrderData>) -> (r: bool)
    ensures
        r == (order_store_contents(*s) == no_orders()),
{
    s.is_empty()
}

/// `Slab::clear`: drops every value.
#[verifier::external_body]
fn order_store_clear(s: &mut Slab<OrderData>)
    ensures
        order_store_contents(*final(s)) == no_orders(),
{
    s.clear()
}

/// Whether `v` lists the values of `m` under the keys `ks`, which are the
/// keys of `m` in increasing order.
pub open spec fn lists_with(v: Seq<OrderData>, m: Map<usize, OrderData>, ks: Seq<usize>) -> bool {
    &&& ks.len() == v.len()
    &&& forall|a: int, b: int| 0 <= a < b < ks.len() ==> ks[a] < ks[b]
    &&& forall|k: usize| #[trigger] m.contains_key(k) <==> ks.contains(k)
    &&& forall|a: int| 0 <= a < ks.len() ==> v[a] == m[#[trigger] ks[a]]
}

/// Whether `v` lists the values of `m` in increasing key order.
pub open spec fn lists_values(v: Seq<OrderData>, m: Map<usize, OrderData>) -> bool {
    exists|ks: Seq<usize>| #[trigger] lists_with(v, m, ks)
}

/// `Slab::iter`: the stored values, in increasing key order.
#[verifier::external_body]
fn order_store_values(s: &Slab<OrderData>) -> (r: Vec<OrderData>)
    ensures
        lists_values(r@, order_store_contents(*s)),
{
    s.iter().map(|(_, o)| *o).collect()
}

/// `Slab::with_capacity`: an empty slab with no slots.
#[verifier::external_body]
fn node_pool_with_capacity(capacity: usize) -> (r: Slab<TriggerNode>)
    ensures
        node_pool_contents(r) == no_nodes(),
        node_pool_slots(r) == 0,
{
    Slab::with_capacity(capacity)
}

/// `Slab::insert`: stores `v` in the first free slot, or in a new slot at
/// the end when none is free, and returns its key.
#[verifier::external_body]
fn node_pool_insert(s: &mut Slab<TriggerNode>, v: TriggerNode) -> (k: usize)
    ensures
        !node_pool_contents(*old(s)).contains_key(k),
        node_pool_contents(*final(s)) == node_pool_contents(*old(s)).insert(k, v),
        k <= node_pool_slots(*old(s)),
        node_pool_slots(*final(s)) == if k == node_pool_slots(*old(s)) {
            (node_pool_slots(*old(s)) + 1) as nat
        } else {
            node_pool_slots(*old(s))
        },
{
    s.insert(v)
}

/// `Slab::get`: the value under `k`, if there is one.
#[verifier::external_body]
fn node_pool_get(s: &Slab<TriggerNode>, k: usize) -> (r: Option<TriggerNode>)
    ensures
        r == if node_pool_contents(*s).contains_key(k) {
            Some(node_pool_contents(*s)[k])
        } else {
            None
        },
{
    s.get(k).copied()
}

/// `Slab`'s `IndexMut`: replaces the value under `k`, which must be present.
#[verifier::external_body]
fn node_pool_set(s: &mut Slab<TriggerNode>, k: usize, v: TriggerNode)
    requires
        node_pool_contents(*old(s)).contains_key(k),
    ensures
        node_pool_contents(*final(s)) == node_pool_contents(*old(s)).insert(k, v),
        node_pool_slots(*final(s)) == node_pool_slots(*old(s)),
{
    s[k] = v;
}

/// `Slab::remove`: takes out the value under `k`, which must be present.
#[verifier::external_body]
fn node_pool_remove(s: &mut Slab<TriggerNode>, k: usize) -> (r: TriggerNode)
    requires
        node_pool_contents(*old(s)).contains_key(k),
    ensures
        r == node_pool_contents(*old(s))[k],
        node_pool_contents(*final(s)) == node_pool_contents(*old(s)).remove(k),
        node_pool_slots(*final(s)) == node_pool_slots(*old(s)),
{
    s.remove(k)
}

/// `Slab::clear`: drops every value and every slot.
#[verifier::external_body]
fn node_pool_clear(s: &mut Slab<TriggerNode>)
    ensures
        node_pool_contents(*final(s)) == no_nodes(),
        node_pool_slots(*final(s)) == 0,
{
    s.clear()
}

/// Puts node `n` at the head of the list that `tree` holds under `price`.
fn link_head(nodes: &mut Slab<TriggerNode>, tree: &mut BTreeMap<u64, u32>, price: u64, n: u32)
    requires
        node_pool_contents(*old(nodes)).contains_key(n as usize),
        old(tree)@.contains_key(price) ==> node_pool_contents(*old(nodes)).contains_key(
            old(tree)@[price] as usize,
        ) && old(tree)@[price] != n,
    ensures
        final(tree)@ == old(tree)@.insert(price, n),
        node_pool_slots(*final(nodes)) == node_pool_slots(*old(nodes)),
        old(tree)@.contains_key(price) && old(tree)@[price] != NULL_NODE ==> {
            let h = old(tree)@[price];
            let c = node_pool_contents(*old(nodes));
            node_pool_contents(*final(nodes)) == c.insert(n as usize, TriggerNode { next: h, ..c[n as usize] }).insert(
                h as usize,
                TriggerNode { prev: n, ..c[h as usize] },
            )
        },
        !(old(tree)@.contains_key(price) && old(tree)@[price] != NULL_NODE) ==> node_pool_contents(*final(nodes))
            == node_pool_contents(*old(nodes)),
{
    match tree.get(&price) {
        Some(h) => {
            let h = *h;
            if h != NULL_NODE {
                let node = node_pool_get(nodes, n as usize).unwrap();
                node_pool_set(nodes, n as usize, TriggerNode { next: h, ..node });
                let head = node_pool_get(nodes, h as usize).unwrap();
                node_pool_set(nodes, h as usize, TriggerNode { prev: n, ..head });
            }
        },
        None => {},
    }
    tree.insert(price, n);
}

/// Takes node `n` off the head of the list that `tree` holds under
/// `price`, if it is that head: `next` heads the list then, or the price
/// leaves the map when the list is left empty.
fn unlink_head(tree: &mut BTreeMap<u64, u32>, price: u64, n: u32, next: u32)
    ensures
        final(tree)@ == if old(tree)@.contains_key(price) && old(tree)@[price] == n {
            if next == NULL_NODE {
                old(tree)@.remove(price)
            } else {
                old(tree)@.insert(price, next)
            }
        } else {
            old(tree)@
        },
{
    let head = match tree.get(&price) {
        Some(h) => *h,
        None => {
            return ;
        },
    };
    if head == n {
        if next == NULL_NODE {
            tree.remove(&price);
        } else {
            tree.insert(price, next);
        }
    }
}

/// Which of the four trigger maps an order belongs in at last trade price
/// `ltp`: a buy at or above it is a stop (0), below it a take-profit (2);
/// a sell at or below it is a stop (1), above it a take-profit (3).
pub open spec fn pool_of(side: Side, trigger: u64, ltp: u64) -> Option<int> {
    match side {
        Side::buy => if trigger >= ltp { Some(0) } else { Some(2) },
        Side::sell => if trigger <= ltp { Some(1) } else { Some(3) },
        Side::NullVal => None,
    }
}

/// Whether a trigger map of kind `k` fires at `price` for last trade price `ltp`.
pub open spec fn fires(k: int, price: u64, ltp: u64) -> bool {
    if k == 0 || k == 3 {
        price <= ltp
    } else {
        price >= ltp
    }
}

/// What is left of trigger map `m` of kind `k` once the prices at which it
/// fires for last trade price `ltp` are taken out.
pub open spec fn fired_out(m: Map<u64, u32>, k: int, ltp: u64) -> Map<u64, u32> {
    m.restrict(m.dom().filter(|p: u64| !fires(k, p, ltp)))
}

/// Parked stop and take-profit orders.
pub struct ConditionOrderManager {
    pub(crate) condition_order_store: Slab<OrderData>,
    pub(crate) trigger_index_buffer: Vec<usize>,
    pub(crate) trigger_node_pool: Slab<TriggerNode>,
    pub(crate) stop_buy_triggers: BTreeMap<u64, u32>,
    pub(crate) stop_sell_triggers: BTreeMap<u64, u32>,
    pub(crate) tp_buy_triggers: BTreeMap<u64, u32>,
    pub(crate) tp_sell_triggers: BTreeMap<u64, u32>,
    pub(crate) pending_stop_map: FxHashMap<u64, (usize, u32)>,
}

impl ConditionOrderManager {
    /// Parked orders by slab key.
    pub closed spec fn store(&self) -> Map<usize, OrderData> {
        order_store_contents(self.condition_order_store)
    }

    /// Trigger nodes by slab key.
    pub closed spec fn nodes(&self) -> Map<usize, TriggerNode> {
        node_pool_contents(self.trigger_node_pool)
    }

    /// Slots of the node slab.
    pub closed spec fn slots(&self) -> nat {
        node_pool_slots(self.trigger_node_pool)
    }

    /// Order slab key and node of each pending order id.
    pub closed spec fn pending(&self) -> Map<u64, (usize, u32)> {
        self.pending_stop_map@
    }

    /// Order slab keys collected by the last trigger scan.
    pub closed spec fn triggered(&self) -> Seq<usize> {
        self.trigger_index_buffer@
    }

    /// Trigger map of kind `k` (see [`pool_of`]): price to list head.
    pub closed spec fn pool(&self, k: int) -> Map<u64, u32> {
        if k == 0 {
            self.stop_buy_triggers@
        } else if k == 1 {
            self.stop_sell_triggers@
        } else if k == 2 {
            self.tp_buy_triggers@
        } else {
            self.tp_sell_triggers@
        }
    }

    /// Whether `n` lacks a node that this manager holds and that refers to
    /// the order slab key `x`.
    pub open spec fn took_node_of(&self, n: &Self, x: usize) -> bool {
        exists|a: u32| self.has_node(a) && !n.has_node(a) && #[trigger] self.node(a).order_idx == x
    }

    /// Whether `n` is this manager with whole list tails taken out of its
    /// nodes: every node `n` keeps is unchanged, every node `n` lacks that
    /// has a successor lacks that successor too, every order slab key that
    /// `n` has collected belongs to a node taken out, and every node taken
    /// out has its key collected.
    pub open spec fn collected_from(&self, n: &Self) -> bool {
        &&& forall|a: u32| #[trigger] n.has_node(a) ==> self.has_node(a) && n.node(a) == self.node(a)
        &&& forall|j: int| 0 <= j < n.triggered().len() ==> self.took_node_of(n, #[trigger] n.triggered()[j])
        &&& forall|a: u32|
            self.has_node(a) && !#[trigger] n.has_node(a) ==> n.triggered().contains(self.node(a).order_idx)
        &&& forall|a: u32|
            self.has_node(a) && !#[trigger] n.has_node(a) && self.node(a).next != NULL_NODE ==> !n.has_node(
                self.node(a).next,
            )
    }

    /// Taking out list tails twice takes them out once.
    proof fn lemma_collected_step(o: Self, b: Self, n: Self)
        requires
            o.collected_from(&b),
            forall|a: u32| #[trigger] n.has_node(a) ==> b.has_node(a) && n.node(a) == b.node(a),
            b.triggered().is_prefix_of(n.triggered()),
            forall|j: int| b.triggered().len() <= j < n.triggered().len() ==> b.took_node_of(&n, #[trigger] n.triggered()[j]),
            forall|a: u32| b.has_node(a) && !#[trigger] n.has_node(a) ==> n.triggered().contains(b.node(a).order_idx),
            forall|a: u32|
                b.has_node(a) && !#[trigger] n.has_node(a) && b.node(a).next != NULL_NODE ==> !n.has_node(b.node(a).next),
        ensures
            o.collected_from(&n),
    {
        assert forall|j: int| 0 <= j < n.triggered().len() implies o.took_node_of(&n, #[trigger] n.triggered()[j]) by {
            if j < b.triggered().len() {
                assert(n.triggered()[j] == b.triggered()[j]);
                assert(o.took_node_of(&b, b.triggered()[j]));
                let a = choose|a: u32| o.has_node(a) && !b.has_node(a) && #[trigger] o.node(a).order_idx == b.triggered()[j];
                assert(!n.has_node(a));
            } else {
                assert(b.took_node_of(&n, n.triggered()[j]));
                let a = choose|a: u32| b.has_node(a) && !n.has_node(a) && #[trigger] b.node(a).order_idx == n.triggered()[j];
                assert(o.has_node(a) && o.node(a) == b.node(a));
            }
        }
        assert forall|a: u32| o.has_node(a) && !#[trigger] n.has_node(a) implies n.triggered().contains(o.node(a).order_idx) by {
            if b.has_node(a) {
                assert(b.node(a) == o.node(a));
            } else {
                assert(b.triggered().contains(o.node(a).order_idx));
                let i = choose|i: int| 0 <= i < b.triggered().len() && b.triggered()[i] == o.node(a).order_idx;
                assert(n.triggered()[i] == o.node(a).order_idx);
            }
        }
        assert forall|a: u32| o.has_node(a) && !#[trigger] n.has_node(a) && o.node(a).next != NULL_NODE implies !n.has_node(o.node(a).next) by {
            if b.has_node(a) {
                assert(b.node(a) == o.node(a));
            } else {
                assert(!b.has_node(o.node(a).next));
            }
        }
    }

    /// Whether node `n` is present.
    pub closed spec fn has_node(&self, n: u32) -> bool {
        self.nodes().contains_key(n as usize)
    }

    /// Node `n`.
    pub closed spec fn node(&self, n: u32) -> TriggerNode {
        self.nodes()[n as usize]
    }

    /// The links of the present nodes agree with each other, every list
    /// head that a trigger map holds is present and has no predecessor,
    /// no node heads two lists, and every pending id points at its parked
    /// order and its node, unless the last scan collected that order.
    pub closed spec fn wf(&self) -> bool {
        self.wf_except(NULL_NODE)
    }

    /// [`Self::wf`], except that node `x` may keep a predecessor that is no
    /// longer present, provided no trigger map holds `x`.
    pub closed spec fn wf_except(&self, x: u32) -> bool {
        &&& forall|k: int, p: u64| 0 <= k < 4 && #[trigger] self.pool(k).contains_key(p) ==> self.pool(k)[p] != x
        &&& self.slots() < NULL_NODE
        &&& self.nodes().dom().finite()
        &&& self.store().dom().finite()
        &&& forall|j: usize| #[trigger] self.nodes().contains_key(j) ==> j < self.slots()
        &&& forall|a: u32| #[trigger] self.has_node(a) ==> self.node(a).kind < 4
        &&& forall|k: int, p: u64|
            0 <= k < 4 && #[trigger] self.pool(k).contains_key(p) ==> self.node(self.pool(k)[p]).price == p
                && self.node(self.pool(k)[p]).kind == k
        &&& forall|a: u32|
            #[trigger] self.has_node(a) && self.node(a).next != NULL_NODE ==> self.has_node(self.node(a).next)
                && self.node(self.node(a).next).prev == a && self.node(self.node(a).next).price == self.node(a).price
                && self.node(self.node(a).next).kind == self.node(a).kind
        &&& forall|a: u32|
            #[trigger] self.has_node(a) && self.node(a).prev != NULL_NODE && a != x ==> self.has_node(
                self.node(a).prev,
            ) && self.node(self.node(a).prev).next == a
        &&& self.has_node(x) && self.node(x).prev != NULL_NODE ==> !self.has_node(self.node(x).prev)
        &&& forall|k: int, p: u64|
            0 <= k < 4 && #[trigger] self.pool(k).contains_key(p) ==> self.has_node(self.pool(k)[p])
                && self.node(self.pool(k)[p]).prev == NULL_NODE
        &&& forall|k1: int, p1: u64, k2: int, p2: u64|
            0 <= k1 < 4 && 0 <= k2 < 4 && #[trigger] self.pool(k1).contains_key(p1)
                && #[trigger] self.pool(k2).contains_key(p2) && self.pool(k1)[p1] == self.pool(k2)[p2]
                ==> k1 == k2 && p1 == p2
        &&& forall|id: u64|
            #[trigger] self.pending().contains_key(id) ==> self.store().contains_key(self.pending()[id].0)
                && self.store()[self.pending()[id].0].order_id.0 == id && ((self.has_node(
                self.pending()[id].1,
            ) && self.node(self.pending()[id].1).order_idx == self.pending()[id].0)
                || self.triggered().contains(self.pending()[id].0))
    }

    /// Every pending id points at a present node of its parked order.
    pub closed spec fn pending_linked(&self) -> bool {
        forall|id: u64|
            #[trigger] self.pending().contains_key(id) ==> self.has_node(self.pending()[id].1) && self.node(
                self.pending()[id].1,
            ).order_idx == self.pending()[id].0
    }

    /// Once no order slab key of the trigger buffer is parked any more,
    /// every pending id points at a present node again.
    pub proof fn lemma_linked_when_worked_off(&self)
        requires
            self.wf(),
            forall|i: int|
                0 <= i < self.triggered().len() ==> !self.store().contains_key(#[trigger] self.triggered()[i]),
        ensures
            self.pending_linked(),
    {
        assert forall|id: u64| #[trigger] self.pending().contains_key(id) implies self.has_node(self.pending()[id].1)
            && self.node(self.pending()[id].1).order_idx == self.pending()[id].0 by {
            if self.triggered().contains(self.pending()[id].0) {
                let i = choose|i: int| 0 <= i < self.triggered().len() && self.triggered()[i] == self.pending()[id].0;
                assert(!self.store().contains_key(self.triggered()[i]));
            }
        }
    }


    /// An empty manager.
    pub fn new() -> (r: Self)
        ensures
            r.wf(),
            r.store() == no_orders(),
            r.pending() == no_pending(),
            r.slots() == 0,
            r.triggered().len() == 0,
            r.pending_linked(),
    {
        let r = ConditionOrderManager {
            condition_order_store: order_store_with_capacity(1024),
            trigger_node_pool: node_pool_with_capacity(1024),
            trigger_index_buffer: Vec::new(),
            stop_buy_triggers: BTreeMap::new(),
            stop_sell_triggers: BTreeMap::new(),
            tp_buy_triggers: BTreeMap::new(),
            tp_sell_triggers: BTreeMap::new(),
            pending_stop_map: fx_with_capacity(1024),
        };
        proof {
            assert(r.nodes().dom() =~= Set::empty());
            assert(r.store().dom() =~= Set::empty());
            assert forall|k: int, p: u64| 0 <= k < 4 implies !#[trigger] r.pool(k).contains_key(p) by {
            }
        }
        r
    }

    /// Parks `order` under its trigger price, in the trigger map that the
    /// last trade price `ltp` selects (see [`pool_of`]); an order that is
    /// neither a buy nor a sell is parked but put in no trigger map.
    pub fn register_condition_order(&mut self, order: OrderData, ltp: Price)
        requires
            old(self).wf(),
            old(self).slots() + 1 < NULL_NODE,
        ensures
            final(self).wf(),
            old(self).pending_linked() ==> final(self).pending_linked(),
            final(self).triggered() == old(self).triggered(),
            exists|s: usize, n: u32|
                {
                    &&& !old(self).store().contains_key(s)
                    &&& final(self).store() == old(self).store().insert(s, order)
                    &&& final(self).pending() == old(self).pending().insert(order.order_id.0, (s, n))
                    &&& !old(self).has_node(n)
                    &&& final(self).has_node(n)
                    &&& final(self).node(n).order_idx == s
                    &&& final(self).node(n).prev == NULL_NODE
                    &&& match pool_of(order.side, order.trigger_price.0, ltp.0) {
                        Some(k) => {
                            &&& final(self).pool(k) == old(self).pool(k).insert(order.trigger_price.0, n)
                            &&& forall|j: int| 0 <= j < 4 && j != k ==> #[trigger] final(self).pool(j) == old(self).pool(j)
                        },
                        None => forall|j: int| 0 <= j < 4 ==> #[trigger] final(self).pool(j) == old(self).pool(j),
                    }
                },
            final(self).slots() <= old(self).slots() + 1,
    {
        let ghost o = *old(self);
        let order_id = order.order_id.0;
        let trigger_price = order.trigger_price.0;
        let side = order.side;
        let kind: u8 = match side {
            Side::buy => if trigger_price >= ltp.0 {
                0
            } else {
                2
            },
            Side::sell => if trigger_price <= ltp.0 {
                1
            } else {
                3
            },
            _ => 0,
        };
        let idx = order_store_insert(&mut self.condition_order_store, order);
        let nk = node_pool_insert(
            &mut self.trigger_node_pool,
            TriggerNode { order_idx: idx, prev: NULL_NODE, next: NULL_NODE, kind, price: trigger_price },
        );
        let node_idx = nk as u32;
        proof {
            assert(node_idx as usize == nk);
            assert forall|k: int, p: u64| 0 <= k < 4 && #[trigger] o.pool(k).contains_key(p) implies o.pool(k)[p] != node_idx by {
            }
        }
        fx_insert(&mut self.pending_stop_map, order_id, (idx, node_idx));
        let ghost mid = *self;
        proof {
            assert(mid.pool(0) == o.pool(0) && mid.pool(1) == o.pool(1) && mid.pool(2) == o.pool(2) && mid.pool(3) == o.pool(3));
        }
        match side {
            Side::buy => {
                if trigger_price >= ltp.0 {
                    link_head(&mut self.trigger_node_pool, &mut self.stop_buy_triggers, trigger_price, node_idx);
                } else {
                    link_head(&mut self.trigger_node_pool, &mut self.tp_buy_triggers, trigger_price, node_idx);
                }
            },
            Side::sell => {
                if trigger_price <= ltp.0 {
                    link_head(&mut self.trigger_node_pool, &mut self.stop_sell_triggers, trigger_price, node_idx);
                } else {
                    link_head(&mut self.trigger_node_pool, &mut self.tp_sell_triggers, trigger_price, node_idx);
                }
            },
            _ => {},
        }
        proof {
            let nn = *self;
            let kk = pool_of(side, trigger_price, ltp.0);
            assert forall|j: int| 0 <= j < 4 && kk != Some(j) implies #[trigger] nn.pool(j) == o.pool(j) by {
            }
            if kk is Some {
                assert(nn.pool(kk->Some_0) == o.pool(kk->Some_0).insert(trigger_price, node_idx));
            }
            // every node other than the new one and the old head keeps its links
            assert forall|a: u32| #[trigger] nn.has_node(a) && nn.node(a).next != NULL_NODE implies nn.has_node(nn.node(a).next)
                && nn.node(nn.node(a).next).prev == a && nn.node(nn.node(a).next).price == nn.node(a).price
                && nn.node(nn.node(a).next).kind == nn.node(a).kind by {
                if a != node_idx {
                    assert(o.has_node(a));
                } else if kk is Some {
                    assert(o.pool(kk->Some_0).contains_key(trigger_price));
                }
            }
            assert forall|a: u32| #[trigger] nn.has_node(a) implies nn.node(a).kind < 4 by {
                if a != node_idx {
                    assert(o.has_node(a));
                }
            }
            assert forall|k: int, p: u64| 0 <= k < 4 && #[trigger] nn.pool(k).contains_key(p) implies nn.node(nn.pool(k)[p]).price
                == p && nn.node(nn.pool(k)[p]).kind == k by {
                if !(kk == Some(k) && p == trigger_price) {
                    assert(o.pool(k).contains_key(p));
                }
            }
            assert forall|a: u32| #[trigger] nn.has_node(a) && nn.node(a).prev != NULL_NODE implies nn.has_node(nn.node(a).prev)
                && nn.node(nn.node(a).prev).next == a by {
                if a != node_idx {
                    assert(o.has_node(a));
                }
            }
            assert forall|k: int, p: u64| 0 <= k < 4 && #[trigger] nn.pool(k).contains_key(p) implies nn.has_node(nn.pool(k)[p])
                && nn.node(nn.pool(k)[p]).prev == NULL_NODE by {
                if !(kk == Some(k) && p == trigger_price) {
                    assert(o.pool(k).contains_key(p));
                }
            }
            assert forall|k1: int, p1: u64, k2: int, p2: u64|
                0 <= k1 < 4 && 0 <= k2 < 4 && #[trigger] nn.pool(k1).contains_key(p1)
                    && #[trigger] nn.pool(k2).contains_key(p2) && nn.pool(k1)[p1] == nn.pool(k2)[p2] implies k1 == k2 && p1 == p2 by {
                if !(kk == Some(k1) && p1 == trigger_price) {
                    assert(o.pool(k1).contains_key(p1));
                }
                if !(kk == Some(k2) && p2 == trigger_price) {
                    assert(o.pool(k2).contains_key(p2));
                }
            }
            assert forall|id: u64| #[trigger] nn.pending().contains_key(id) implies nn.store().contains_key(nn.pending()[id].0)
                && nn.store()[nn.pending()[id].0].order_id.0 == id && ((nn.has_node(nn.pending()[id].1)
                && nn.node(nn.pending()[id].1).order_idx == nn.pending()[id].0) || nn.triggered().contains(
                nn.pending()[id].0,
            )) by {
                if id != order_id {
                    assert(o.pending().contains_key(id));
                    if o.triggered().contains(o.pending()[id].0) {
                    } else {
                        assert(o.has_node(o.pending()[id].1));
                    }
                }
            }
            assert(nn.wf());
            if o.pending_linked() {
                assert forall|id: u64| #[trigger] nn.pending().contains_key(id) implies nn.has_node(nn.pending()[id].1)
                    && nn.node(nn.pending()[id].1).order_idx == nn.pending()[id].0 by {
                    if id != order_id {
                        assert(o.pending().contains_key(id));
                    }
                }
            }
        }
    }

    /// Takes node `node_idx` out of its trigger list, linking its neighbours
    /// to each other and leaving every other node as it was. When the node heads
    /// the list that its trigger map holds under its trigger price, the map
    /// then holds the next node there, or nothing when the list is left
    /// empty; the map is the one the list was filed in when its order was
    /// parked, whatever the last trade price is now.
    pub fn unregister_condition_trigger(&mut self, node_idx: u32, order: &OrderData, ltp: Price)
        requires
            old(self).wf(),
            old(self).has_node(node_idx) ==> !old(self).store().contains_key(old(self).node(node_idx).order_idx),
        ensures
            final(self).wf(),
            old(self).pending_linked() ==> final(self).pending_linked(),
            final(self).store() == old(self).store(),
            final(self).pending() == old(self).pending(),
            final(self).triggered() == old(self).triggered(),
            final(self).slots() == old(self).slots(),
            !old(self).has_node(node_idx) ==> *final(self) == *old(self),
            old(self).has_node(node_idx) ==> {
                let nd = old(self).node(node_idx);
                let k = nd.kind as int;
                let heads = nd.prev == NULL_NODE && old(self).pool(k).contains_key(nd.price) && old(self).pool(k)[nd.price]
                    == node_idx;
                &&& !final(self).has_node(node_idx)
                &&& forall|a: u32| #[trigger] final(self).has_node(a) ==> old(self).has_node(a)
                &&& forall|a: u32| old(self).has_node(a) && a != node_idx ==> #[trigger] final(self).has_node(a)
                &&& nd.prev != NULL_NODE && nd.prev != node_idx && nd.prev != nd.next ==> final(self).node(nd.prev)
                    == (TriggerNode { next: nd.next, ..old(self).node(nd.prev) })
                &&& nd.next != NULL_NODE && nd.next != node_idx && nd.prev != nd.next ==> final(self).node(nd.next)
                    == (TriggerNode { prev: nd.prev, ..old(self).node(nd.next) })
                &&& forall|a: u32|
                    #[trigger] final(self).has_node(a) && a != nd.prev && a != nd.next ==> final(self).node(a) == old(self).node(a)
                &&& heads ==> final(self).pool(k) == if nd.next == NULL_NODE {
                    old(self).pool(k).remove(nd.price)
                } else {
                    old(self).pool(k).insert(nd.price, nd.next)
                }
                &&& forall|j: int| 0 <= j < 4 && (!heads || j != k) ==> #[trigger] final(self).pool(j) == old(self).pool(j)
            },
    {
        let ghost o = *old(self);
        let node = match node_pool_get(&self.trigger_node_pool, node_idx as usize) {
            Some(n) => n,
            None => {
                return ;
            },
        };
        let prev = node.prev;
        let next = node.next;
        let price = node.price;
        proof {
            assert(o.has_node(node_idx));
            assert(o.node(node_idx) == node);
            if prev != NULL_NODE {
                assert(o.has_node(prev));
            }
            if next != NULL_NODE {
                assert(o.has_node(next));
            }
        }
        if prev != NULL_NODE {
            let pn = node_pool_get(&self.trigger_node_pool, prev as usize).unwrap();
            node_pool_set(&mut self.trigger_node_pool, prev as usize, TriggerNode { next, ..pn });
        } else if node.kind == 0 {
            unlink_head(&mut self.stop_buy_triggers, price, node_idx, next);
        } else if node.kind == 1 {
            unlink_head(&mut self.stop_sell_triggers, price, node_idx, next);
        } else if node.kind == 2 {
            unlink_head(&mut self.tp_buy_triggers, price, node_idx, next);
        } else {
            unlink_head(&mut self.tp_sell_triggers, price, node_idx, next);
        }
        if next != NULL_NODE {
            let nx = node_pool_get(&self.trigger_node_pool, next as usize).unwrap();
            node_pool_set(&mut self.trigger_node_pool, next as usize, TriggerNode { prev, ..nx });
        }
        node_pool_remove(&mut self.trigger_node_pool, node_idx as usize);
        proof {
            let nn = *self;
            let k = node.kind as int;
            let heads = prev == NULL_NODE && o.pool(k).contains_key(price) && o.pool(k)[price] == node_idx;
            assert(0 <= k < 4);
            assert forall|j: int| 0 <= j < 4 && (!heads || j != k) implies #[trigger] nn.pool(j) == o.pool(j) by {
            }
            // no trigger map holds the node unless it heads the list under its own price
            assert forall|j: int, p: u64| 0 <= j < 4 && #[trigger] o.pool(j).contains_key(p) && o.pool(j)[p] == node_idx implies heads
                && j == k && p == price by {
            }
            assert forall|a: u32| #[trigger] nn.has_node(a) implies o.has_node(a) && a != node_idx by {
            }
            assert forall|a: u32| #[trigger] nn.has_node(a) implies nn.node(a).kind < 4 by {
                assert(o.has_node(a));
            }
            assert forall|a: u32| #[trigger] nn.has_node(a) && nn.node(a).next != NULL_NODE implies nn.has_node(nn.node(a).next)
                && nn.node(nn.node(a).next).prev == a && nn.node(nn.node(a).next).price == nn.node(a).price
                && nn.node(nn.node(a).next).kind == nn.node(a).kind by {
                assert(o.has_node(a));
                if a == prev {
                } else {
                    assert(o.node(a).next != node_idx);
                }
            }
            assert forall|a: u32| #[trigger] nn.has_node(a) && nn.node(a).prev != NULL_NODE implies nn.has_node(nn.node(a).prev)
                && nn.node(nn.node(a).prev).next == a by {
                assert(o.has_node(a));
                if a == next {
                } else {
                    assert(o.node(a).prev != node_idx);
                }
            }
            assert forall|j: int, p: u64| 0 <= j < 4 && #[trigger] nn.pool(j).contains_key(p) implies nn.has_node(nn.pool(j)[p])
                && nn.node(nn.pool(j)[p]).prev == NULL_NODE && nn.node(nn.pool(j)[p]).price == p && nn.node(nn.pool(j)[p]).kind
                == j by {
                if !(heads && j == k && p == price) {
                    assert(o.pool(j).contains_key(p));
                    assert(o.pool(j)[p] != node_idx);
                    assert(o.pool(j)[p] != next);
                }
            }
            assert forall|k1: int, p1: u64, k2: int, p2: u64|
                0 <= k1 < 4 && 0 <= k2 < 4 && #[trigger] nn.pool(k1).contains_key(p1)
                    && #[trigger] nn.pool(k2).contains_key(p2) && nn.pool(k1)[p1] == nn.pool(k2)[p2] implies k1 == k2 && p1 == p2 by {
                if !(heads && k1 == k && p1 == price) {
                    assert(o.pool(k1).contains_key(p1));
                }
                if !(heads && k2 == k && p2 == price) {
                    assert(o.pool(k2).contains_key(p2));
                }
            }
            assert forall|id: u64| #[trigger] nn.pending().contains_key(id) implies nn.store().contains_key(nn.pending()[id].0)
                && nn.store()[nn.pending()[id].0].order_id.0 == id && ((nn.has_node(nn.pending()[id].1)
                && nn.node(nn.pending()[id].1).order_idx == nn.pending()[id].0) || nn.triggered().contains(
                nn.pending()[id].0,
            )) by {
                assert(o.pending().contains_key(id));
            }
            assert(nn.wf());
            if o.pending_linked() {
                assert forall|id: u64| #[trigger] nn.pending().contains_key(id) implies nn.has_node(nn.pending()[id].1)
                    && nn.node(nn.pending()[id].1).order_idx == nn.pending()[id].0 by {
                    assert(o.pending().contains_key(id));
                }
            }
        }
    }

    /// Takes every node of the list from `head` on out of the node slab and
    /// records the order slab key of each.
    fn collect_and_recycle_trigger_list(&mut self, head: u32)
        requires
            old(self).wf_except(head),
        ensures
            final(self).wf(),
            final(self).store() == old(self).store(),
            final(self).pending() == old(self).pending(),
            final(self).slots() == old(self).slots(),
            forall|k: int| 0 <= k < 4 ==> #[trigger] final(self).pool(k) == old(self).pool(k),
            forall|a: u32| #[trigger] final(self).has_node(a) ==> old(self).has_node(a),
            old(self).triggered().is_prefix_of(final(self).triggered()),
            forall|a: u32| #[trigger] final(self).has_node(a) ==> final(self).node(a) == old(self).node(a),
            old(self).has_node(head) ==> !final(self).has_node(head),
            forall|j: int|
                old(self).triggered().len() <= j < final(self).triggered().len() ==> old(self).took_node_of(&*final(self), #[trigger] final(self).triggered()[j]),
            forall|a: u32|
                old(self).has_node(a) && !#[trigger] final(self).has_node(a) ==> final(self).triggered().contains(
                    old(self).node(a).order_idx,
                ),
            forall|a: u32|
                old(self).has_node(a) && !#[trigger] final(self).has_node(a) && old(self).node(a).next != NULL_NODE
                    ==> !final(self).has_node(old(self).node(a).next),
    {
        let ghost o = *old(self);
        let mut cur = head;
        while cur != NULL_NODE
            invariant
                self.wf_except(cur),
                self.store() == o.store(),
                self.pending() == o.pending(),
                self.slots() == o.slots(),
                forall|k: int| 0 <= k < 4 ==> #[trigger] self.pool(k) == o.pool(k),
                forall|a: u32| #[trigger] self.has_node(a) ==> o.has_node(a) && self.node(a) == o.node(a),
                o.triggered().is_prefix_of(self.triggered()),
                o.has_node(head) ==> cur == head || !self.has_node(head),
                forall|j: int|
                    o.triggered().len() <= j < self.triggered().len() ==> o.took_node_of(self, #[trigger] self.triggered()[j]),
                forall|a: u32|
                    o.has_node(a) && !#[trigger] self.has_node(a) ==> self.triggered().contains(o.node(a).order_idx),
                forall|a: u32|
                    o.has_node(a) && !#[trigger] self.has_node(a) && o.node(a).next != NULL_NODE && o.node(a).next != cur
                        ==> !self.has_node(o.node(a).next),
            ensures
                self.wf(),
                forall|a: u32| #[trigger] self.has_node(a) ==> o.has_node(a) && self.node(a) == o.node(a),
                o.has_node(head) ==> !self.has_node(head),
                forall|j: int|
                    o.triggered().len() <= j < self.triggered().len() ==> o.took_node_of(self, #[trigger] self.triggered()[j]),
                forall|a: u32|
                    o.has_node(a) && !#[trigger] self.has_node(a) ==> self.triggered().contains(o.node(a).order_idx),
                forall|a: u32|
                    o.has_node(a) && !#[trigger] self.has_node(a) && o.node(a).next != NULL_NODE
                        ==> !self.has_node(o.node(a).next),
            decreases self.nodes().len(),
        {
            let node = match node_pool_get(&self.trigger_node_pool, cur as usize) {
                Some(n) => n,
                None => {
                    proof {
                        assert(!self.has_node(cur));
                        self.lemma_wf_except_absent(cur);
                    }
                    break;
                },
            };
            let ghost before = *self;
            proof {
                assert(self.has_node(cur));
                assert(before.node(cur) == o.node(cur));
            }
            self.trigger_index_buffer.push(node.order_idx);
            let next = node.next;
            node_pool_remove(&mut self.trigger_node_pool, cur as usize);
            proof {
                let nn = *self;
                assert(before.has_node(cur));
                assert(before.node(cur) == node);
                if next != NULL_NODE {
                    assert(before.has_node(next));
                }
                assert forall|a: u32| #[trigger] nn.has_node(a) implies before.has_node(a) && a != cur && nn.node(a)
                    == before.node(a) by {
                }
                assert forall|a: u32| #[trigger] nn.has_node(a) && nn.node(a).next != NULL_NODE implies nn.has_node(
                    nn.node(a).next,
                ) && nn.node(nn.node(a).next).prev == a && nn.node(nn.node(a).next).price == nn.node(a).price
                    && nn.node(nn.node(a).next).kind == nn.node(a).kind by {
                    assert(before.has_node(a));
                    if before.node(a).next == cur {
                        assert(before.node(cur).prev == a);
                    }
                }
                assert forall|a: u32| #[trigger] nn.has_node(a) implies nn.node(a).kind < 4 by {
                    assert(before.has_node(a));
                }
                assert forall|k: int, p: u64| 0 <= k < 4 && #[trigger] nn.pool(k).contains_key(p) implies nn.node(nn.pool(k)[p]).price
                    == p && nn.node(nn.pool(k)[p]).kind == k by {
                    assert(before.pool(k).contains_key(p));
                }
                assert forall|a: u32| #[trigger] nn.has_node(a) && nn.node(a).prev != NULL_NODE && a != next implies nn.has_node(
                    nn.node(a).prev,
                ) && nn.node(nn.node(a).prev).next == a by {
                    assert(before.has_node(a));
                    if a != cur {
                        if before.node(a).prev == cur {
                            assert(before.node(cur).next == a);
                        }
                    }
                }
                assert forall|k: int, p: u64| 0 <= k < 4 && #[trigger] nn.pool(k).contains_key(p) implies nn.pool(k)[p] != next && nn.has_node(nn.pool(k)[p]) && nn.node(nn.pool(k)[p]).prev == NULL_NODE by {
                    assert(before.pool(k).contains_key(p));
                }
                assert forall|id: u64| #[trigger] nn.pending().contains_key(id) implies nn.store().contains_key(nn.pending()[id].0)
                    && nn.store()[nn.pending()[id].0].order_id.0 == id && ((nn.has_node(nn.pending()[id].1)
                    && nn.node(nn.pending()[id].1).order_idx == nn.pending()[id].0) || nn.triggered().contains(
                    nn.pending()[id].0,
                )) by {
                    assert(before.pending().contains_key(id));
                    if before.triggered().contains(before.pending()[id].0) {
                        let i = choose|i: int| 0 <= i < before.triggered().len() && before.triggered()[i] == before.pending()[id].0;
                        assert(nn.triggered()[i] == before.pending()[id].0);
                    } else if before.pending()[id].1 == cur {
                        assert(nn.triggered()[nn.triggered().len() - 1] == node.order_idx);
                    }
                }
                assert forall|k: int| 0 <= k < 4 implies #[trigger] nn.pool(k) == o.pool(k) by {
                    assert(before.pool(k) == o.pool(k));
                }
                assert forall|k1: int, p1: u64, k2: int, p2: u64|
                    0 <= k1 < 4 && 0 <= k2 < 4 && #[trigger] nn.pool(k1).contains_key(p1)
                        && #[trigger] nn.pool(k2).contains_key(p2) && nn.pool(k1)[p1] == nn.pool(k2)[p2] implies k1 == k2 && p1 == p2 by {
                    assert(before.pool(k1).contains_key(p1));
                    assert(before.pool(k2).contains_key(p2));
                }
                assert(nn.slots() < NULL_NODE);
                assert(nn.nodes().dom().finite());
                assert(nn.store().dom().finite());
                assert(forall|j: usize| #[trigger] nn.nodes().contains_key(j) ==> j < nn.slots());
                assert(nn.has_node(next) && nn.node(next).prev != NULL_NODE ==> !nn.has_node(nn.node(next).prev));
                assert(nn.wf_except(next));
                assert forall|j: int| o.triggered().len() <= j < nn.triggered().len() implies o.took_node_of(
                    &nn,
                    #[trigger] nn.triggered()[j],
                ) by {
                    if j < before.triggered().len() {
                        assert(nn.triggered()[j] == before.triggered()[j]);
                        assert(o.took_node_of(&before, before.triggered()[j]));
                        let a = choose|a: u32| o.has_node(a) && !before.has_node(a) && o.node(a).order_idx == before.triggered()[j];
                        assert(!nn.has_node(a));
                    } else {
                        assert(nn.triggered()[j] == node.order_idx);
                        assert(!nn.has_node(cur));
                        assert(o.has_node(cur) && o.node(cur).order_idx == node.order_idx);
                    }
                }
                assert forall|a: u32| o.has_node(a) && !#[trigger] nn.has_node(a) implies nn.triggered().contains(o.node(a).order_idx) by {
                    if a == cur {
                        assert(nn.triggered()[nn.triggered().len() - 1] == node.order_idx);
                    } else {
                        assert(!before.has_node(a));
                        let i = choose|i: int| 0 <= i < before.triggered().len() && before.triggered()[i] == o.node(a).order_idx;
                        assert(nn.triggered()[i] == o.node(a).order_idx);
                    }
                }
                assert forall|a: u32| o.has_node(a) && !#[trigger] nn.has_node(a) && o.node(a).next != NULL_NODE && o.node(a).next != next
                    implies !nn.has_node(o.node(a).next) by {
                    if a != cur {
                        assert(!before.has_node(a));
                    }
                }
            }
            cur = next;
        }
        proof {
            if cur == NULL_NODE {
                self.lemma_wf_except_absent(cur);
            }
        }
    }

    /// With `x` absent, the relaxed consistency is the full one.
    proof fn lemma_wf_except_absent(&self, x: u32)
        requires
            self.wf_except(x),
            !self.has_node(x),
        ensures
            self.wf(),
    {
        assert forall|k: int, p: u64| 0 <= k < 4 && #[trigger] self.pool(k).contains_key(p) implies self.pool(k)[p] != NULL_NODE by {
            assert(self.has_node(self.pool(k)[p]));
        }
    }

    /// Collects the parked orders whose trigger the last trade price `ltp`
    /// has reached: every trigger map gives up the lists under the prices at
    /// which it fires (see [`fires`]), and the order slab key of each node of
    /// those lists goes into the trigger buffer, which starts empty. Every
    /// node of a fired list leaves the node slab, and every key in the
    /// buffer is that of a node that left it.
    pub fn collect_triggered_indices(&mut self, ltp: Price)
        requires
            old(self).wf(),
            old(self).pending_linked(),
        ensures
            final(self).wf(),
            final(self).store() == old(self).store(),
            final(self).pending() == old(self).pending(),
            final(self).slots() == old(self).slots(),
            forall|a: u32| #[trigger] final(self).has_node(a) ==> old(self).has_node(a),
            forall|k: int| 0 <= k < 4 ==> #[trigger] final(self).pool(k) == fired_out(old(self).pool(k), k, ltp.0),
            old(self).collected_from(&*final(self)),
            forall|k: int, p: u64|
                0 <= k < 4 && #[trigger] old(self).pool(k).contains_key(p) && fires(k, p, ltp.0) ==> !final(self).has_node(
                    old(self).pool(k)[p],
                ),
    {
        let ghost o0 = *old(self);
        self.trigger_index_buffer.clear();
        let ghost o = *self;
        proof {
            assert forall|j: int| 0 <= j < 4 implies #[trigger] o.pool(j) == o0.pool(j) by {
            }
            assert(o.wf()) by {
                assert forall|k: int, p: u64| 0 <= k < 4 && #[trigger] o.pool(k).contains_key(p) implies o.pool(k)[p] != NULL_NODE
                    && o.has_node(o.pool(k)[p]) && o.node(o.pool(k)[p]).prev == NULL_NODE && o.node(o.pool(k)[p]).price == p
                    && o.node(o.pool(k)[p]).kind == k by {
                    assert(o0.pool(k).contains_key(p));
                }
                assert forall|k1: int, p1: u64, k2: int, p2: u64|
                    0 <= k1 < 4 && 0 <= k2 < 4 && #[trigger] o.pool(k1).contains_key(p1)
                        && #[trigger] o.pool(k2).contains_key(p2) && o.pool(k1)[p1] == o.pool(k2)[p2] implies k1 == k2 && p1 == p2 by {
                    assert(o0.pool(k1).contains_key(p1));
                    assert(o0.pool(k2).contains_key(p2));
                }
                assert forall|a: u32| #[trigger] o.has_node(a) && o.node(a).prev != NULL_NODE implies o.has_node(
                    o.node(a).prev,
                ) && o.node(o.node(a).prev).next == a by {
                    assert(o0.has_node(a));
                }
                assert forall|a: u32| #[trigger] o.has_node(a) && o.node(a).next != NULL_NODE implies o.has_node(
                    o.node(a).next,
                ) && o.node(o.node(a).next).prev == a && o.node(o.node(a).next).price == o.node(a).price
                    && o.node(o.node(a).next).kind == o.node(a).kind by {
                    assert(o0.has_node(a));
                }
                assert forall|a: u32| #[trigger] o.has_node(a) implies o.node(a).kind < 4 by {
                    assert(o0.has_node(a));
                }
                assert forall|id: u64| #[trigger] o.pending().contains_key(id) implies o.store().contains_key(o.pending()[id].0)
                    && o.store()[o.pending()[id].0].order_id.0 == id && ((o.has_node(o.pending()[id].1)
                    && o.node(o.pending()[id].1).order_idx == o.pending()[id].0) || o.triggered().contains(
                    o.pending()[id].0,
                )) by {
                    assert(o0.pending().contains_key(id));

                }
            }
        }
        // Buy stops fire once the last trade price reaches them: lowest first.
        let ghost m0 = *self;
        loop
            invariant
                self.wf(),
                self.store() == o.store(),
                self.pending() == o.pending(),
                self.slots() == o.slots(),
                forall|a: u32| #[trigger] self.has_node(a) ==> o.has_node(a),
                o.collected_from(self),
                forall|k: int, p: u64|
                    0 <= k < 4 && #[trigger] self.pool(k).contains_key(p) ==> o.pool(k).contains_key(p) && self.pool(k)[p] == o.pool(k)[p],
                forall|k: int, p: u64|
                    0 <= k < 4 && #[trigger] o.pool(k).contains_key(p) && !self.pool(k).contains_key(p) ==> !self.has_node(o.pool(k)[p]),
                forall|j: int| 0 <= j < 4 && j != 0 ==> #[trigger] self.pool(j) == m0.pool(j),
                forall|p: u64| #[trigger] self.pool(0).contains_key(p) ==> m0.pool(0).contains_key(p) && self.pool(0)[p] == m0.pool(0)[p],
                forall|p: u64| #[trigger] m0.pool(0).contains_key(p) && !fires(0, p, ltp.0) ==> self.pool(0).contains_key(p),
            ensures
                self.wf(),
                self.store() == o.store(),
                self.pending() == o.pending(),
                self.slots() == o.slots(),
                forall|a: u32| #[trigger] self.has_node(a) ==> o.has_node(a),
                o.collected_from(self),
                forall|k: int, p: u64|
                    0 <= k < 4 && #[trigger] self.pool(k).contains_key(p) ==> o.pool(k).contains_key(p) && self.pool(k)[p] == o.pool(k)[p],
                forall|k: int, p: u64|
                    0 <= k < 4 && #[trigger] o.pool(k).contains_key(p) && !self.pool(k).contains_key(p) ==> !self.has_node(o.pool(k)[p]),
                forall|j: int| 0 <= j < 4 && j != 0 ==> #[trigger] self.pool(j) == m0.pool(j),
                self.pool(0) == fired_out(m0.pool(0), 0, ltp.0),
            decreases self.pool(0).len(),
        {
            let first = match first_key(&self.stop_buy_triggers) {
                Some(p) => p,
                None => {
                    proof {
                        assert(self.pool(0) =~= fired_out(m0.pool(0), 0, ltp.0));
                    }
                    break;
                },
            };
            if first > ltp.0 {
                proof {
                    assert(self.pool(0) =~= fired_out(m0.pool(0), 0, ltp.0));
                }
                break;
            }
            let ghost before = *self;
            let removed = self.stop_buy_triggers.remove(&first);
            proof {
                assert(before.pool(0).contains_key(first));
                assert(self.pool(0) == before.pool(0).remove(first));
                assert forall|j: int| 0 <= j < 4 && j != 0 implies #[trigger] self.pool(j) == before.pool(j) by {
                }
            }
            let ghost after_remove = *self;
            proof {
                assert(o.collected_from(&before));
                assert(after_remove.nodes() == before.nodes());
                assert(after_remove.triggered() == before.triggered());
                assert(forall|a: u32| #[trigger] after_remove.has_node(a) == before.has_node(a));
                assert(o.collected_from(&after_remove));
            }
            match removed {
                Some(h) => {
                    proof {
                        self.lemma_taken_head(before, 0, first, h);
                    }
                    self.collect_and_recycle_trigger_list(h);
                },
                None => {},
            }
            proof {
                assert forall|a: u32| #[trigger] self.has_node(a) implies o.has_node(a) by {
                    assert(after_remove.has_node(a));
                    assert(before.has_node(a));
                }
                Self::lemma_collected_step(o, after_remove, *self);
                assert forall|k: int, p: u64| 0 <= k < 4 && #[trigger] self.pool(k).contains_key(p) implies o.pool(k).contains_key(p)
                    && self.pool(k)[p] == o.pool(k)[p] by {
                    assert(before.pool(k).contains_key(p));
                }
                assert forall|k: int, p: u64| 0 <= k < 4 && #[trigger] o.pool(k).contains_key(p) && !self.pool(k).contains_key(p)
                    implies !self.has_node(o.pool(k)[p]) by {
                    if before.pool(k).contains_key(p) {
                        assert(before.pool(k)[p] == o.pool(k)[p]);
                    } else {
                        assert(!before.has_node(o.pool(k)[p]));
                    }
                }
            }
        }
        // Buy take-profits fire once the last trade price falls to them: highest first.
        let ghost m2 = *self;
        loop
            invariant
                self.wf(),
                self.store() == o.store(),
                self.pending() == o.pending(),
                self.slots() == o.slots(),
                forall|a: u32| #[trigger] self.has_node(a) ==> o.has_node(a),
                o.collected_from(self),
                forall|k: int, p: u64|
                    0 <= k < 4 && #[trigger] self.pool(k).contains_key(p) ==> o.pool(k).contains_key(p) && self.pool(k)[p] == o.pool(k)[p],
                forall|k: int, p: u64|
                    0 <= k < 4 && #[trigger] o.pool(k).contains_key(p) && !self.pool(k).contains_key(p) ==> !self.has_node(o.pool(k)[p]),
                forall|j: int| 0 <= j < 4 && j != 2 ==> #[trigger] self.pool(j) == m2.pool(j),
                forall|p: u64| #[trigger] self.pool(2).contains_key(p) ==> m2.pool(2).contains_key(p) && self.pool(2)[p] == m2.pool(2)[p],
                forall|p: u64| #[trigger] m2.pool(2).contains_key(p) && !fires(2, p, ltp.0) ==> self.pool(2).contains_key(p),
            ensures
                self.wf(),
                self.store() == o.store(),
                self.pending() == o.pending(),
                self.slots() == o.slots(),
                forall|a: u32| #[trigger] self.has_node(a) ==> o.has_node(a),
                o.collected_from(self),
                forall|k: int, p: u64|
                    0 <= k < 4 && #[trigger] self.pool(k).contains_key(p) ==> o.pool(k).contains_key(p) && self.pool(k)[p] == o.pool(k)[p],
                forall|k: int, p: u64|
                    0 <= k < 4 && #[trigger] o.pool(k).contains_key(p) && !self.pool(k).contains_key(p) ==> !self.has_node(o.pool(k)[p]),
                forall|j: int| 0 <= j < 4 && j != 2 ==> #[trigger] self.pool(j) == m2.pool(j),
                self.pool(2) == fired_out(m2.pool(2), 2, ltp.0),
            decreases self.pool(2).len(),
        {
            let first = match last_key(&self.tp_buy_triggers) {
                Some(p) => p,
                None => {
                    proof {
                        assert(self.pool(2) =~= fired_out(m2.pool(2), 2, ltp.0));
                    }
                    break;
                },
            };
            if first < ltp.0 {
                proof {
                    assert(self.pool(2) =~= fired_out(m2.pool(2), 2, ltp.0));
                }
                break;
            }
            let ghost before = *self;
            let removed = self.tp_buy_triggers.remove(&first);
            proof {
                assert(before.pool(2).contains_key(first));
                assert(self.pool(2) == before.pool(2).remove(first));
                assert forall|j: int| 0 <= j < 4 && j != 2 implies #[trigger] self.pool(j) == before.pool(j) by {
                }
            }
            let ghost after_remove = *self;
            proof {
                assert(o.collected_from(&before));
                assert(after_remove.nodes() == before.nodes());
                assert(after_remove.triggered() == before.triggered());
                assert(forall|a: u32| #[trigger] after_remove.has_node(a) == before.has_node(a));
                assert(o.collected_from(&after_remove));
            }
            match removed {
                Some(h) => {
                    proof {
                        self.lemma_taken_head(before, 2, first, h);
                    }
                    self.collect_and_recycle_trigger_list(h);
                },
                None => {},
            }
            proof {
                assert forall|a: u32| #[trigger] self.has_node(a) implies o.has_node(a) by {
                    assert(after_remove.has_node(a));
                    assert(before.has_node(a));
                }
                Self::lemma_collected_step(o, after_remove, *self);
                assert forall|k: int, p: u64| 0 <= k < 4 && #[trigger] self.pool(k).contains_key(p) implies o.pool(k).contains_key(p)
                    && self.pool(k)[p] == o.pool(k)[p] by {
                    assert(before.pool(k).contains_key(p));
                }
                assert forall|k: int, p: u64| 0 <= k < 4 && #[trigger] o.pool(k).contains_key(p) && !self.pool(k).contains_key(p)
                    implies !self.has_node(o.pool(k)[p]) by {
                    if before.pool(k).contains_key(p) {
                        assert(before.pool(k)[p] == o.pool(k)[p]);
                    } else {
                        assert(!before.has_node(o.pool(k)[p]));
                    }
                }
            }
        }
        // Sell stops fire once the last trade price falls to them: highest first.
        let ghost m1 = *self;
        loop
            invariant
                self.wf(),
                self.store() == o.store(),
                self.pending() == o.pending(),
                self.slots() == o.slots(),
                forall|a: u32| #[trigger] self.has_node(a) ==> o.has_node(a),
                o.collected_from(self),
                forall|k: int, p: u64|
                    0 <= k < 4 && #[trigger] self.pool(k).contains_key(p) ==> o.pool(k).contains_key(p) && self.pool(k)[p] == o.pool(k)[p],
                forall|k: int, p: u64|
                    0 <= k < 4 && #[trigger] o.pool(k).contains_key(p) && !self.pool(k).contains_key(p) ==> !self.has_node(o.pool(k)[p]),
                forall|j: int| 0 <= j < 4 && j != 1 ==> #[trigger] self.pool(j) == m1.pool(j),
                forall|p: u64| #[trigger] self.pool(1).contains_key(p) ==> m1.pool(1).contains_key(p) && self.pool(1)[p] == m1.pool(1)[p],
                forall|p: u64| #[trigger] m1.pool(1).contains_key(p) && !fires(1, p, ltp.0) ==> self.pool(1).contains_key(p),
            ensures
                self.wf(),
                self.store() == o.store(),
                self.pending() == o.pending(),
                self.slots() == o.slots(),
                forall|a: u32| #[trigger] self.has_node(a) ==> o.has_node(a),
                o.collected_from(self),
                forall|k: int, p: u64|
                    0 <= k < 4 && #[trigger] self.pool(k).contains_key(p) ==> o.pool(k).contains_key(p) && self.pool(k)[p] == o.pool(k)[p],
                forall|k: int, p: u64|
                    0 <= k < 4 && #[trigger] o.pool(k).contains_key(p) && !self.pool(k).contains_key(p) ==> !self.has_node(o.pool(k)[p]),
                forall|j: int| 0 <= j < 4 && j != 1 ==> #[trigger] self.pool(j) == m1.pool(j),
                self.pool(1) == fired_out(m1.pool(1), 1, ltp.0),
            decreases self.pool(1).len(),
        {
            let first = match last_key(&self.stop_sell_triggers) {
                Some(p) => p,
                None => {
                    proof {
                        assert(self.pool(1) =~= fired_out(m1.pool(1), 1, ltp.0));
                    }
                    break;
                },
            };
            if first < ltp.0 {
                proof {
                    assert(self.pool(1) =~= fired_out(m1.pool(1), 1, ltp.0));
                }
                break;
            }
            let ghost before = *self;
            let removed = self.stop_sell_triggers.remove(&first);
            proof {
                assert(before.pool(1).contains_key(first));
                assert(self.pool(1) == before.pool(1).remove(first));
                assert forall|j: int| 0 <= j < 4 && j != 1 implies #[trigger] self.pool(j) == before.pool(j) by {
                }
            }
            let ghost after_remove = *self;
            proof {
                assert(o.collected_from(&before));
                assert(after_remove.nodes() == before.nodes());
                assert(after_remove.triggered() == before.triggered());
                assert(forall|a: u32| #[trigger] after_remove.has_node(a) == before.has_node(a));
                assert(o.collected_from(&after_remove));
            }
            match removed {
                Some(h) => {
                    proof {
                        self.lemma_taken_head(before, 1, first, h);
                    }
                    self.collect_and_recycle_trigger_list(h);
                },
                None => {},
            }
            proof {
                assert forall|a: u32| #[trigger] self.has_node(a) implies o.has_node(a) by {
                    assert(after_remove.has_node(a));
                    assert(before.has_node(a));
                }
                Self::lemma_collected_step(o, after_remove, *self);
                assert forall|k: int, p: u64| 0 <= k < 4 && #[trigger] self.pool(k).contains_key(p) implies o.pool(k).contains_key(p)
                    && self.pool(k)[p] == o.pool(k)[p] by {
                    assert(before.pool(k).contains_key(p));
                }
                assert forall|k: int, p: u64| 0 <= k < 4 && #[trigger] o.pool(k).contains_key(p) && !self.pool(k).contains_key(p)
                    implies !self.has_node(o.pool(k)[p]) by {
                    if before.pool(k).contains_key(p) {
                        assert(before.pool(k)[p] == o.pool(k)[p]);
                    } else {
                        assert(!before.has_node(o.pool(k)[p]));
                    }
                }
            }
        }
        // Sell take-profits fire once the last trade price reaches them: lowest first.
        let ghost m3 = *self;
        loop
            invariant
                self.wf(),
                self.store() == o.store(),
                self.pending() == o.pending(),
                self.slots() == o.slots(),
                forall|a: u32| #[trigger] self.has_node(a) ==> o.has_node(a),
                o.collected_from(self),
                forall|k: int, p: u64|
                    0 <= k < 4 && #[trigger] self.pool(k).contains_key(p) ==> o.pool(k).contains_key(p) && self.pool(k)[p] == o.pool(k)[p],
                forall|k: int, p: u64|
                    0 <= k < 4 && #[trigger] o.pool(k).contains_key(p) && !self.pool(k).contains_key(p) ==> !self.has_node(o.pool(k)[p]),
                forall|j: int| 0 <= j < 4 && j != 3 ==> #[trigger] self.pool(j) == m3.pool(j),
                forall|p: u64| #[trigger] self.pool(3).contains_key(p) ==> m3.pool(3).contains_key(p) && self.pool(3)[p] == m3.pool(3)[p],
                forall|p: u64| #[trigger] m3.pool(3).contains_key(p) && !fires(3, p, ltp.0) ==> self.pool(3).contains_key(p),
            ensures
                self.wf(),
                self.store() == o.store(),
                self.pending() == o.pending(),
                self.slots() == o.slots(),
                forall|a: u32| #[trigger] self.has_node(a) ==> o.has_node(a),
                o.collected_from(self),
                forall|k: int, p: u64|
                    0 <= k < 4 && #[trigger] self.pool(k).contains_key(p) ==> o.pool(k).contains_key(p) && self.pool(k)[p] == o.pool(k)[p],
                forall|k: int, p: u64|
                    0 <= k < 4 && #[trigger] o.pool(k).contains_key(p) && !self.pool(k).contains_key(p) ==> !self.has_node(o.pool(k)[p]),
                forall|j: int| 0 <= j < 4 && j != 3 ==> #[trigger] self.pool(j) == m3.pool(j),
                self.pool(3) == fired_out(m3.pool(3), 3, ltp.0),
            decreases self.pool(3).len(),
        {
            let first = match first_key(&self.tp_sell_triggers) {
                Some(p) => p,
                None => {
                    proof {
                        assert(self.pool(3) =~= fired_out(m3.pool(3), 3, ltp.0));
                    }
                    break;
                },
            };
            if first > ltp.0 {
                proof {
                    assert(self.pool(3) =~= fired_out(m3.pool(3), 3, ltp.0));
                }
                break;
            }
            let ghost before = *self;
            let removed = self.tp_sell_triggers.remove(&first);
            proof {
                assert(before.pool(3).contains_key(first));
                assert(self.pool(3) == before.pool(3).remove(first));
                assert forall|j: int| 0 <= j < 4 && j != 3 implies #[trigger] self.pool(j) == before.pool(j) by {
                }
            }
            let ghost after_remove = *self;
            proof {
                assert(o.collected_from(&before));
                assert(after_remove.nodes() == before.nodes());
                assert(after_remove.triggered() == before.triggered());
                assert(forall|a: u32| #[trigger] after_remove.has_node(a) == before.has_node(a));
                assert(o.collected_from(&after_remove));
            }
            match removed {
                Some(h) => {
                    proof {
                        self.lemma_taken_head(before, 3, first, h);
                    }
                    self.collect_and_recycle_trigger_list(h);
                },
                None => {},
            }
            proof {
                assert forall|a: u32| #[trigger] self.has_node(a) implies o.has_node(a) by {
                    assert(after_remove.has_node(a));
                    assert(before.has_node(a));
                }
                Self::lemma_collected_step(o, after_remove, *self);
                assert forall|k: int, p: u64| 0 <= k < 4 && #[trigger] self.pool(k).contains_key(p) implies o.pool(k).contains_key(p)
                    && self.pool(k)[p] == o.pool(k)[p] by {
                    assert(before.pool(k).contains_key(p));
                }
                assert forall|k: int, p: u64| 0 <= k < 4 && #[trigger] o.pool(k).contains_key(p) && !self.pool(k).contains_key(p)
                    implies !self.has_node(o.pool(k)[p]) by {
                    if before.pool(k).contains_key(p) {
                        assert(before.pool(k)[p] == o.pool(k)[p]);
                    } else {
                        assert(!before.has_node(o.pool(k)[p]));
                    }
                }
            }
        }
        proof {
            assert forall|k: int| 0 <= k < 4 implies #[trigger] self.pool(k) == fired_out(o0.pool(k), k, ltp.0) by {
                assert(o0.pool(k) == o.pool(k));
                assert(m0.pool(k) == o.pool(k));
                if k == 0 {
                    assert(m1.pool(0) == m2.pool(0));
                    assert(m3.pool(0) == m1.pool(0));
                    assert(self.pool(0) == m3.pool(0));
                } else if k == 2 {
                    assert(m2.pool(2) == m0.pool(2));
                    assert(m3.pool(2) == m1.pool(2));
                    assert(self.pool(2) == m3.pool(2));
                } else if k == 1 {
                    assert(m2.pool(1) == m0.pool(1));
                    assert(m1.pool(1) == m2.pool(1));
                    assert(self.pool(1) == m3.pool(1));
                } else {
                    assert(m2.pool(3) == m0.pool(3));
                    assert(m1.pool(3) == m2.pool(3));
                    assert(m3.pool(3) == m1.pool(3));
                }
            }
        }
        proof {
            assert(o0.nodes() == o.nodes());
            assert(o.collected_from(self));
            assert(forall|a: u32| #[trigger] o0.has_node(a) == o.has_node(a));
            assert(forall|a: u32| #[trigger] o0.node(a) == o.node(a));
            assert forall|x: usize| #[trigger] o.took_node_of(self, x) implies o0.took_node_of(self, x) by {
                let a = choose|a: u32| o.has_node(a) && !self.has_node(a) && #[trigger] o.node(a).order_idx == x;
                assert(o0.has_node(a) && o0.node(a).order_idx == x);
            }
            assert forall|k: int, p: u64| 0 <= k < 4 && #[trigger] o0.pool(k).contains_key(p) && fires(k, p, ltp.0)
                implies !self.has_node(o0.pool(k)[p]) by {
                assert(o.pool(k) == o0.pool(k));
                assert(self.pool(k) == fired_out(o0.pool(k), k, ltp.0));
                assert(!self.pool(k).contains_key(p));
            }
        }
    }

    /// A list head just taken out of trigger map `k` under `price` leaves
    /// the manager consistent but for that head.
    proof fn lemma_taken_head(&self, before: Self, k: int, price: u64, h: u32)
        requires
            before.wf(),
            0 <= k < 4,
            before.pool(k).contains_key(price),
            before.pool(k)[price] == h,
            self.pool(k) == before.pool(k).remove(price),
            forall|j: int| 0 <= j < 4 && j != k ==> #[trigger] self.pool(j) == before.pool(j),
            self.nodes() == before.nodes(),
            self.slots() == before.slots(),
            self.store() == before.store(),
            self.pending() == before.pending(),
            self.triggered() == before.triggered(),
        ensures
            self.wf_except(h),
    {
        assert forall|j: int, p: u64| 0 <= j < 4 && #[trigger] self.pool(j).contains_key(p) implies self.pool(j)[p] != h
            && self.has_node(self.pool(j)[p]) && self.node(self.pool(j)[p]).prev == NULL_NODE by {
            assert(before.pool(j).contains_key(p));
            assert(before.pool(j)[p] == self.pool(j)[p]);
        }
        assert forall|k1: int, p1: u64, k2: int, p2: u64|
            0 <= k1 < 4 && 0 <= k2 < 4 && #[trigger] self.pool(k1).contains_key(p1)
                && #[trigger] self.pool(k2).contains_key(p2) && self.pool(k1)[p1] == self.pool(k2)[p2] implies k1 == k2 && p1 == p2 by {
            assert(before.pool(k1).contains_key(p1));
            assert(before.pool(k2).contains_key(p2));
        }
        assert forall|a: u32| #[trigger] self.has_node(a) && self.node(a).prev != NULL_NODE implies self.has_node(
            self.node(a).prev,
        ) && self.node(self.node(a).prev).next == a by {
            assert(before.has_node(a));
        }
        assert forall|a: u32| #[trigger] self.has_node(a) && self.node(a).next != NULL_NODE implies self.has_node(
            self.node(a).next,
        ) && self.node(self.node(a).next).prev == a && self.node(self.node(a).next).price == self.node(a).price
            && self.node(self.node(a).next).kind == self.node(a).kind by {
            assert(before.has_node(a));
        }
        assert forall|a: u32| #[trigger] self.has_node(a) implies self.node(a).kind < 4 by {
            assert(before.has_node(a));
        }
        assert forall|j: int, p: u64| 0 <= j < 4 && #[trigger] self.pool(j).contains_key(p) implies self.node(self.pool(j)[p]).price
            == p && self.node(self.pool(j)[p]).kind == j by {
            assert(before.pool(j).contains_key(p));
        }
        assert forall|id: u64| #[trigger] self.pending().contains_key(id) implies self.store().contains_key(self.pending()[id].0)
            && self.store()[self.pending()[id].0].order_id.0 == id && ((self.has_node(self.pending()[id].1)
            && self.node(self.pending()[id].1).order_idx == self.pending()[id].0) || self.triggered().contains(
            self.pending()[id].0,
        )) by {
            assert(before.pending().contains_key(id));
        }
    }

    /// Takes out the pending entry of `order_id`: the slab key of its parked
    /// order and its node.
    pub fn remove_pending(&mut self, order_id: u64) -> (r: Option<(usize, u32)>)
        requires
            old(self).wf(),
        ensures
            final(self).wf(),
            old(self).pending_linked() ==> final(self).pending_linked(),
            final(self).store() == old(self).store(),
            final(self).pending() == old(self).pending().remove(order_id),
            final(self).triggered() == old(self).triggered(),
            final(self).slots() == old(self).slots(),
            forall|k: int| 0 <= k < 4 ==> #[trigger] final(self).pool(k) == old(self).pool(k),
            forall|a: u32| #[trigger] final(self).has_node(a) == old(self).has_node(a),
            forall|a: u32| #[trigger] final(self).has_node(a) ==> final(self).node(a) == old(self).node(a),
            r == if old(self).pending().contains_key(order_id) {
                Some(old(self).pending()[order_id])
            } else {
                None
            },
            old(self).pending_linked() ==> (r matches Some((s, n)) ==> old(self).has_node(n) && old(self).node(n).order_idx
                == s),
            r matches Some((s, n)) ==> {
                &&& old(self).store().contains_key(s)
                &&& old(self).store()[s].order_id.0 == order_id
                &&& (old(self).has_node(n) && old(self).node(n).order_idx == s) || old(self).triggered().contains(s)
                &&& forall|id: u64| #[trigger] final(self).pending().contains_key(id) ==> final(self).pending()[id].0 != s
            },
    {
        let ghost o = *old(self);
        let r = fx_remove(&mut self.pending_stop_map, order_id);
        proof {
            let nn = *self;
            assert forall|j: int| 0 <= j < 4 implies #[trigger] nn.pool(j) == o.pool(j) by {
            }
            Self::lemma_same_links(o, nn);
            assert forall|id: u64| #[trigger] nn.pending().contains_key(id) implies nn.store().contains_key(nn.pending()[id].0)
                && nn.store()[nn.pending()[id].0].order_id.0 == id && ((nn.has_node(nn.pending()[id].1)
                && nn.node(nn.pending()[id].1).order_idx == nn.pending()[id].0) || nn.triggered().contains(
                nn.pending()[id].0,
            )) by {
                assert(o.pending().contains_key(id));
            }
            if o.pending().contains_key(order_id) {
                assert(o.pending().contains_key(order_id));
                let s = o.pending()[order_id].0;
                assert forall|id: u64| #[trigger] nn.pending().contains_key(id) implies nn.pending()[id].0 != s by {
                    assert(o.pending().contains_key(id));
                }
            }
        }
        r
    }

    /// Takes the parked order under slab key `s` out, when no pending entry
    /// points at it.
    pub fn try_remove_order(&mut self, s: usize) -> (r: Option<OrderData>)
        requires
            old(self).wf(),
            forall|id: u64| #[trigger] old(self).pending().contains_key(id) ==> old(self).pending()[id].0 != s,
        ensures
            final(self).wf(),
            old(self).pending_linked() ==> final(self).pending_linked(),
            final(self).store() == old(self).store().remove(s),
            final(self).pending() == old(self).pending(),
            final(self).triggered() == old(self).triggered(),
            final(self).slots() == old(self).slots(),
            forall|k: int| 0 <= k < 4 ==> #[trigger] final(self).pool(k) == old(self).pool(k),
            forall|a: u32| #[trigger] final(self).has_node(a) == old(self).has_node(a),
            forall|a: u32| #[trigger] final(self).has_node(a) ==> final(self).node(a) == old(self).node(a),
            r == if old(self).store().contains_key(s) {
                Some(old(self).store()[s])
            } else {
                None
            },
    {
        let ghost o = *old(self);
        let r = order_store_try_remove(&mut self.condition_order_store, s);
        proof {
            let nn = *self;
            assert(nn.store() =~= o.store().remove(s));
            assert forall|j: int| 0 <= j < 4 implies #[trigger] nn.pool(j) == o.pool(j) by {
            }
            Self::lemma_same_links(o, nn);
            assert forall|id: u64| #[trigger] nn.pending().contains_key(id) implies nn.store().contains_key(nn.pending()[id].0)
                && nn.store()[nn.pending()[id].0].order_id.0 == id && ((nn.has_node(nn.pending()[id].1)
                && nn.node(nn.pending()[id].1).order_idx == nn.pending()[id].0) || nn.triggered().contains(
                nn.pending()[id].0,
            )) by {
                assert(o.pending().contains_key(id));
            }
        }
        r
    }

    /// Takes the parked order under slab key `s` out together with the
    /// pending entry of its order id (a triggered order being activated).
    pub fn take_triggered(&mut self, s: usize) -> (r: Option<OrderData>)
        requires
            old(self).wf(),
        ensures
            final(self).wf(),
            final(self).triggered() == old(self).triggered(),
            final(self).slots() == old(self).slots(),
            forall|k: int| 0 <= k < 4 ==> #[trigger] final(self).pool(k) == old(self).pool(k),
            forall|a: u32| #[trigger] final(self).has_node(a) == old(self).has_node(a),
            !final(self).store().contains_key(s),
            r == if old(self).store().contains_key(s) {
                Some(old(self).store()[s])
            } else {
                None
            },
            final(self).store() == old(self).store().remove(s),
            r matches Some(ord) ==> final(self).pending() == old(self).pending().remove(ord.order_id.0),
            r is None ==> final(self).pending() == old(self).pending(),
    {
        let ghost o = *old(self);
        let r = order_store_try_remove(&mut self.condition_order_store, s);
        match r {
            Some(ord) => {
                fx_remove(&mut self.pending_stop_map, ord.order_id.0);
            },
            None => {},
        }
        proof {
            let nn = *self;
            assert(nn.store() =~= o.store().remove(s));
            assert forall|j: int| 0 <= j < 4 implies #[trigger] nn.pool(j) == o.pool(j) by {
            }
            Self::lemma_same_links(o, nn);
            assert forall|id: u64| #[trigger] nn.pending().contains_key(id) implies nn.store().contains_key(nn.pending()[id].0)
                && nn.store()[nn.pending()[id].0].order_id.0 == id && ((nn.has_node(nn.pending()[id].1)
                && nn.node(nn.pending()[id].1).order_idx == nn.pending()[id].0) || nn.triggered().contains(
                nn.pending()[id].0,
            )) by {
                assert(o.pending().contains_key(id));
            }
        }
        r
    }

    /// Number of order slab keys in the trigger buffer.
    pub fn triggered_len(&self) -> (r: usize)
        ensures
            r == self.triggered().len(),
    {
        self.trigger_index_buffer.len()
    }

    /// Order slab key at position `i` of the trigger buffer.
    pub fn triggered_at(&self, i: usize) -> (r: usize)
        requires
            i < self.triggered().len(),
        ensures
            r == self.triggered()[i as int],
    {
        self.trigger_index_buffer[i]
    }

    /// Two managers with the same nodes, trigger maps and slots agree on
    /// every link clause of consistency.
    proof fn lemma_same_links(o: Self, n: Self)
        requires
            o.wf(),
            n.nodes() == o.nodes(),
            n.slots() == o.slots(),
            forall|j: int| 0 <= j < 4 ==> #[trigger] n.pool(j) == o.pool(j),
        ensures
            forall|a: u32| #[trigger] n.has_node(a) == o.has_node(a),
            forall|a: u32| #[trigger] n.has_node(a) ==> n.node(a) == o.node(a),
            forall|k: int, p: u64| 0 <= k < 4 && #[trigger] n.pool(k).contains_key(p) ==> n.pool(k)[p] != NULL_NODE
                && n.has_node(n.pool(k)[p]) && n.node(n.pool(k)[p]).prev == NULL_NODE,
            forall|k1: int, p1: u64, k2: int, p2: u64|
                0 <= k1 < 4 && 0 <= k2 < 4 && #[trigger] n.pool(k1).contains_key(p1)
                    && #[trigger] n.pool(k2).contains_key(p2) && n.pool(k1)[p1] == n.pool(k2)[p2] ==> k1 == k2 && p1 == p2,
            forall|a: u32| #[trigger] n.has_node(a) && n.node(a).prev != NULL_NODE ==> n.has_node(n.node(a).prev)
                && n.node(n.node(a).prev).next == a,
            forall|a: u32| #[trigger] n.has_node(a) && n.node(a).next != NULL_NODE ==> n.has_node(n.node(a).next)
                && n.node(n.node(a).next).prev == a,
    {
        assert forall|k: int, p: u64| 0 <= k < 4 && #[trigger] n.pool(k).contains_key(p) implies n.pool(k)[p] != NULL_NODE
            && n.has_node(n.pool(k)[p]) && n.node(n.pool(k)[p]).prev == NULL_NODE by {
            assert(o.pool(k).contains_key(p));
        }
        assert forall|k1: int, p1: u64, k2: int, p2: u64|
            0 <= k1 < 4 && 0 <= k2 < 4 && #[trigger] n.pool(k1).contains_key(p1)
                && #[trigger] n.pool(k2).contains_key(p2) && n.pool(k1)[p1] == n.pool(k2)[p2] implies k1 == k2 && p1 == p2 by {
            assert(o.pool(k1).contains_key(p1));
            assert(o.pool(k2).contains_key(p2));
        }
        assert forall|a: u32| #[trigger] n.has_node(a) && n.node(a).prev != NULL_NODE implies n.has_node(n.node(a).prev)
            && n.node(n.node(a).prev).next == a by {
            assert(o.has_node(a));
        }
        assert forall|a: u32| #[trigger] n.has_node(a) && n.node(a).next != NULL_NODE implies n.has_node(n.node(a).next)
            && n.node(n.node(a).next).prev == a by {
            assert(o.has_node(a));
        }
    }

    /// A consistent manager parks finitely many orders.
    pub proof fn lemma_finite(&self)
        requires
            self.wf(),
        ensures
            self.store().dom().finite(),
    {
    }

    /// The parked orders, in increasing slot order.
    pub fn orders(&self) -> (r: Vec<OrderData>)
        ensures
            lists_values(r@, self.store()),
    {
        order_store_values(&self.condition_order_store)
    }

    /// Number of parked orders.
    pub fn len(&self) -> (r: usize)
        requires
            self.wf(),
        ensures
            r == self.store().len(),
    {
        order_store_len(&self.condition_order_store)
    }

    /// Whether no order is parked.
    pub fn is_empty(&self) -> (r: bool)
        ensures
            r == (self.store() == no_orders()),
    {
        order_store_is_empty(&self.condition_order_store)
    }

    /// Drops every parked order and every trigger.
    pub fn clear(&mut self)
        ensures
            final(self).wf(),
            final(self).store() == no_orders(),
            final(self).pending() == no_pending(),
            final(self).slots() == 0,
            final(self).pending_linked(),
    {
        order_store_clear(&mut self.condition_order_store);
        node_pool_clear(&mut self.trigger_node_pool);
        self.stop_buy_triggers.clear();
        self.stop_sell_triggers.clear();
        self.tp_buy_triggers.clear();
        self.tp_sell_triggers.clear();
        fx_clear(&mut self.pending_stop_map);
        proof {
            assert(self.nodes().dom() =~= Set::empty());
            assert(self.store().dom() =~= Set::empty());
            assert forall|k: int, p: u64| 0 <= k < 4 implies !#[trigger] self.pool(k).contains_key(p) by {
            }
        }
    }
}

} // verus!
