use crate::orders::{Order, OrderRequest, OrderType, Side};
use std::collections::HashMap;
use vstd::prelude::*;

verus! {

broadcast use vstd::std_specs::hash::group_hash_axioms;

/// Ranking key derived from an order when it is inserted or amended. It lives
/// apart from the order record so that the ranking structure can be rebuilt
/// without touching the record, and so that stale keys for an id may linger
/// harmlessly as tombstones after the record is gone.
#[derive(Clone, Copy, Debug)]
pub struct OrderIndex {
    pub id: u64,
    pub price: u64,
    pub timestamp: u64,
    pub order_side: Side,
}

/// `a` ranks strictly higher than `b` in a queue of side `side`: a better
/// price wins (higher for bids, lower for asks), and at equal price the
/// earlier arrival wins.
pub open spec fn ranks_above(side: Side, a: OrderIndex, b: OrderIndex) -> bool {
    match side {
        Side::Bid => a.price > b.price || (a.price == b.price && a.timestamp < b.timestamp),
        Side::Ask => a.price < b.price || (a.price == b.price && a.timestamp < b.timestamp),
    }
}

/// `a` ranks at least as high as `b`: strictly higher, or tied on both price
/// and timestamp (ids do not enter the ordering, so distinct orders may tie).
pub open spec fn ranks_at_least(side: Side, a: OrderIndex, b: OrderIndex) -> bool {
    ranks_above(side, a, b) || (a.price == b.price && a.timestamp == b.timestamp)
}

fn ranks_above_exec(side: Side, a: &OrderIndex, b: &OrderIndex) -> (r: bool)
    ensures
        r == ranks_above(side, *a, *b),
{
    match side {
        Side::Bid => a.price > b.price || (a.price == b.price && a.timestamp < b.timestamp),
        Side::Ask => a.price < b.price || (a.price == b.price && a.timestamp < b.timestamp),
    }
}

/// The position of the top-ranked entry of `s`: the entry that a max-priority
/// queue over `ranks_above` would surface. Among tied entries the earliest
/// position is chosen.
pub open spec fn best_idx(s: Seq<OrderIndex>, side: Side) -> int
    decreases s.len(),
{
    if s.len() <= 1 {
        0
    } else {
        let r = best_idx(s.drop_last(), side);
        if ranks_above(side, s.last(), s[r]) {
            s.len() - 1
        } else {
            r
        }
    }
}

pub proof fn lemma_best_idx(s: Seq<OrderIndex>, side: Side)
    requires
        s.len() > 0,
    ensures
        0 <= best_idx(s, side) < s.len(),
        forall|j: int| 0 <= j < s.len() ==> ranks_at_least(side, s[best_idx(s, side)], #[trigger] s[j]),
    decreases s.len(),
{
    if s.len() > 1 {
        lemma_best_idx(s.drop_last(), side);
        assert(forall|j: int| 0 <= j < s.len() - 1 ==> s.drop_last()[j] == #[trigger] s[j]);
    }
}

/// Some entry of `s` carries this id.
pub open spec fn seq_has_id(s: Seq<OrderIndex>, id: u64) -> bool {
    exists|i: int| 0 <= i < s.len() && (#[trigger] s[i]).id == id
}

/// What is left of the ranking entries `s` once the tombstones at the top are
/// discarded: while the top-ranked entry's id has no record in `dom`, that
/// entry is dropped, until a live entry surfaces or nothing remains.
pub open spec fn purged(s: Seq<OrderIndex>, dom: Set<u64>, side: Side) -> Seq<OrderIndex>
    decreases s.len(),
    via purged_decreases
{
    if s.len() == 0 {
        s
    } else if dom.contains(s[best_idx(s, side)].id) {
        s
    } else {
        purged(s.remove(best_idx(s, side)), dom, side)
    }
}

#[via_fn]
proof fn purged_decreases(s: Seq<OrderIndex>, dom: Set<u64>, side: Side) {
    if s.len() > 0 {
        lemma_best_idx(s, side);
    }
}

pub proof fn lemma_purged(s: Seq<OrderIndex>, dom: Set<u64>, side: Side)
    ensures
        ({
            let p = purged(s, dom, side);
            &&& p.len() <= s.len()
            &&& (p.len() > 0 ==> dom.contains(p[best_idx(p, side)].id))
            &&& (forall|k: int|
                0 <= k < p.len() ==> exists|i: int| 0 <= i < s.len() && s[i] == #[trigger] p[k])
            &&& (forall|id: u64|
                dom.contains(id) && #[trigger] seq_has_id(s, id) ==> seq_has_id(p, id))
        }),
    decreases s.len(),
{
    let p = purged(s, dom, side);
    if s.len() == 0 {
    } else {
        lemma_best_idx(s, side);
        let b = best_idx(s, side);
        if dom.contains(s[b].id) {
            assert forall|k: int| 0 <= k < p.len() implies exists|i: int|
                0 <= i < s.len() && s[i] == #[trigger] p[k] by {
                assert(0 <= k < s.len() && s[k] == p[k]);
            };
        } else {
            let s2 = s.remove(b);
            lemma_purged(s2, dom, side);
            assert(p == purged(s2, dom, side));
            assert forall|k: int| 0 <= k < p.len() implies exists|i: int|
                0 <= i < s.len() && s[i] == #[trigger] p[k] by {
                let i2 = choose|i2: int| 0 <= i2 < s2.len() && s2[i2] == p[k];
                if i2 < b {
                    assert(s[i2] == s2[i2]);
                } else {
                    assert(s[i2 + 1] == s2[i2]);
                }
            };
            assert forall|id: u64|
                dom.contains(id) && #[trigger] seq_has_id(s, id) implies seq_has_id(p, id) by {
                let i = choose|i: int| 0 <= i < s.len() && (#[trigger] s[i]).id == id;
                if i < b {
                    assert(s2[i].id == id);
                } else {
                    assert(s2[i - 1] == s[i]);
                }
                assert(seq_has_id(s2, id));
            };
        }
    }
}

/// The ranking entries of `s` that do not carry `id`, in their original
/// order.
pub open spec fn drop_entries_of(s: Seq<OrderIndex>, id: u64) -> Seq<OrderIndex>
    decreases s.len(),
{
    if s.len() == 0 {
        s
    } else {
        let rest = drop_entries_of(s.drop_last(), id);
        if s.last().id == id {
            rest
        } else {
            rest.push(s.last())
        }
    }
}

pub proof fn lemma_drop_entries_of(s: Seq<OrderIndex>, id: u64)
    ensures
        ({
            let out = drop_entries_of(s, id);
            &&& out.len() <= s.len()
            &&& (forall|k: int|
                0 <= k < out.len() ==> (#[trigger] out[k]).id != id && exists|i: int|
                    0 <= i < s.len() && s[i] == out[k])
            &&& (forall|j: int|
                0 <= j < s.len() && (#[trigger] s[j]).id != id ==> exists|k: int|
                    0 <= k < out.len() && out[k] == s[j])
            &&& ((forall|i: int, j: int|
                0 <= i < s.len() && 0 <= j < s.len() && i != j ==> (#[trigger] s[i]).id
                    != (#[trigger] s[j]).id) ==> (forall|k1: int, k2: int|
                0 <= k1 < out.len() && 0 <= k2 < out.len() && k1 != k2 ==> (#[trigger] out[k1]).id
                    != (#[trigger] out[k2]).id))
        }),
    decreases s.len(),
{
    let out = drop_entries_of(s, id);
    if s.len() > 0 {
        let d = s.drop_last();
        lemma_drop_entries_of(d, id);
        let rest = drop_entries_of(d, id);
        assert(forall|i: int| 0 <= i < s.len() - 1 ==> #[trigger] s[i] == d[i]);
        assert forall|k: int| 0 <= k < out.len() implies (#[trigger] out[k]).id != id
            && exists|i: int| 0 <= i < s.len() && s[i] == out[k] by {
            if k < rest.len() {
                assert(out[k] == rest[k]);
                let i = choose|i: int| 0 <= i < d.len() && d[i] == rest[k];
                assert(s[i] == out[k]);
            } else {
                assert(out[k] == s.last());
            }
        };
        assert forall|j: int|
            0 <= j < s.len() && (#[trigger] s[j]).id != id implies exists|k: int|
            0 <= k < out.len() && out[k] == s[j] by {
            if j < s.len() - 1 {
                assert(d[j] == s[j]);
                let k = choose|k: int| 0 <= k < rest.len() && rest[k] == d[j];
                assert(out[k] == s[j]);
            } else {
                assert(out[out.len() - 1] == s[j]);
            }
        };
        if forall|i: int, j: int|
            0 <= i < s.len() && 0 <= j < s.len() && i != j ==> (#[trigger] s[i]).id
                != (#[trigger] s[j]).id {
            assert(forall|i: int, j: int|
                0 <= i < d.len() && 0 <= j < d.len() && i != j ==> (#[trigger] d[i]).id
                    != (#[trigger] d[j]).id);
            assert forall|k1: int, k2: int|
                0 <= k1 < out.len() && 0 <= k2 < out.len() && k1 != k2 implies (#[trigger] out[k1]).id
                != (#[trigger] out[k2]).id by {
                if s.last().id != id && k2 == out.len() - 1 && k1 < rest.len() {
                    let i = choose|i: int| 0 <= i < d.len() && d[i] == rest[k1];
                    assert(s[i].id != s[s.len() - 1].id);
                } else if s.last().id != id && k1 == out.len() - 1 && k2 < rest.len() {
                    let i = choose|i: int| 0 <= i < d.len() && d[i] == rest[k2];
                    assert(s[i].id != s[s.len() - 1].id);
                }
            };
        }
    }
}

/// Discarding tombstones is idempotent: a second pass over an unchanged
/// queue finds nothing more to drop, so repeated reads of an unchanged
/// queue report the same result.
pub proof fn lemma_purged_idempotent(s: Seq<OrderIndex>, dom: Set<u64>, side: Side)
    ensures
        purged(purged(s, dom, side), dom, side) == purged(s, dom, side),
{
    lemma_purged(s, dom, side);
}

/// The mathematical content of an order queue: the side it serves, the
/// ranking entries as they sit in the priority structure (tombstones
/// included), and the authoritative id-keyed order records.
pub struct QueueModel<Symbol> {
    pub side: Side,
    pub entries: Seq<OrderIndex>,
    pub records: Map<u64, Order<Symbol>>,
}

impl<Symbol> QueueModel<Symbol> {
    /// The entry at position `i` still has a record behind it; an entry whose
    /// id is gone from the records is a tombstone.
    pub open spec fn live(self, i: int) -> bool {
        self.records.dom().contains(self.entries[i].id)
    }

    /// Some entry carries this id.
    pub open spec fn has_entry(self, id: u64) -> bool {
        exists|i: int| 0 <= i < self.entries.len() && (#[trigger] self.entries[i]).id == id
    }

    /// Well-formedness: every entry carries the queue's side, and every
    /// recorded id is reachable through at least one entry. Tombstones are
    /// permitted; an id with no entry at all is not, since peek and pop
    /// could then miss a live order.
    pub open spec fn inv(self) -> bool {
        &&& (forall|i: int|
            0 <= i < self.entries.len() ==> (#[trigger] self.entries[i]).order_side == self.side)
        &&& (forall|id: u64| #[trigger] self.records.dom().contains(id) ==> self.has_entry(id))
    }

    /// A tightened shape with no tombstones and exactly one entry per id.
    /// Every queue built and driven through this module's operations keeps
    /// it; the operations themselves are proved against `inv` alone, so
    /// they stay correct even when stale entries linger.
    pub open spec fn tight(self) -> bool {
        &&& (forall|i: int|
            0 <= i < self.entries.len() ==> self.records.dom().contains(
                (#[trigger] self.entries[i]).id,
            ))
        &&& (forall|i: int, j: int|
            0 <= i < self.entries.len() && 0 <= j < self.entries.len() && i != j
                ==> (#[trigger] self.entries[i]).id != (#[trigger] self.entries[j]).id)
    }

    /// Every live entry quotes the same price as the record it ranks, so the
    /// ranking order is also the order of record prices.
    pub open spec fn price_synced(self) -> bool {
        forall|i: int|
            0 <= i < self.entries.len() && self.live(i) ==> (#[trigger] self.entries[i]).price
                == self.records[self.entries[i].id].price
    }

    /// How a market request of quantity `qty` eats into this resting queue:
    /// tombstones at the top are discarded as they surface; a best live order
    /// larger than the remainder is reduced in place and the request is done;
    /// an equal one is consumed whole; a smaller one is consumed whole and
    /// matching continues with the remainder. The result is the queue
    /// afterwards and the quantity that found no liquidity.
    pub open spec fn consume(self, qty: u64) -> (QueueModel<Symbol>, u64)
        decreases self.entries.len(),
        via Self::consume_decreases
    {
        if self.entries.len() == 0 {
            (self, qty)
        } else {
            let b = best_idx(self.entries, self.side);
            let key = self.entries[b].id;
            if !self.records.dom().contains(key) {
                QueueModel {
                    side: self.side,
                    entries: self.entries.remove(b),
                    records: self.records,
                }.consume(qty)
            } else {
                let o = self.records[key];
                if qty < o.quantity {
                    (
                        QueueModel {
                            side: self.side,
                            entries: self.entries,
                            records: self.records.insert(key, reduced(o, qty)),
                        },
                        0,
                    )
                } else {
                    let m2 = QueueModel {
                        side: self.side,
                        entries: self.entries.remove(b),
                        records: self.records.remove(key),
                    };
                    if qty == o.quantity {
                        (m2, 0)
                    } else {
                        m2.consume((qty - o.quantity) as u64)
                    }
                }
            }
        }
    }

    #[via_fn]
    proof fn consume_decreases(self, qty: u64) {
        if self.entries.len() > 0 {
            lemma_best_idx(self.entries, self.side);
        }
    }
}

/// A priority queue of ranking entries plus the id-keyed order records:
/// one side of the book. The records are the source of truth for order
/// content; the entries are purely an ordering index over them.
pub struct OrderQueue<Symbol> {
    index_queue: Vec<OrderIndex>,
    orders: HashMap<u64, Order<Symbol>>,
    order_side: Side,
}

impl<Symbol> View for OrderQueue<Symbol> {
    type V = QueueModel<Symbol>;

    closed spec fn view(&self) -> QueueModel<Symbol> {
        QueueModel { side: self.order_side, entries: self.index_queue@, records: self.orders@ }
    }
}

impl<Symbol> OrderQueue<Symbol> {
    /// Creates an empty queue for one side; `capacity` is only a
    /// pre-allocation hint.
    pub fn new(side: Side, capacity: usize) -> (q: Self)
        ensures
            q@.side == side,
            q@.entries == Seq::<OrderIndex>::empty(),
            q@.records == Map::<u64, Order<Symbol>>::empty(),
            q@.inv(),
            q@.tight(),
            q@.price_synced(),
    {
        OrderQueue {
            index_queue: Vec::with_capacity(capacity),
            orders: HashMap::with_capacity(capacity),
            order_side: side,
        }
    }

    fn best_entry_index(entries: &Vec<OrderIndex>, side: Side) -> (r: Option<usize>)
        ensures
            match r {
                Some(b) => b < entries@.len() && b as int == best_idx(entries@, side),
                None => entries@.len() == 0,
            },
    {
        if entries.len() == 0 {
            return None;
        }
        let mut best: usize = 0;
        let mut i: usize = 1;
        while i < entries.len()
            invariant
                1 <= i <= entries@.len(),
                0 <= best < i,
                best as int == best_idx(entries@.take(i as int), side),
            decreases entries@.len() - i,
        {
            proof {
                assert(entries@.take(i as int + 1).drop_last() =~= entries@.take(i as int));
                assert(entries@.take(i as int + 1).last() == entries@[i as int]);
            }
            if ranks_above_exec(side, &entries[i], &entries[best]) {
                best = i;
            }
            i = i + 1;
        }
        proof {
            assert(entries@.take(entries@.len() as int) =~= entries@);
        }
        Some(best)
    }

    /// The id of the top-ranked entry, tombstone or not; `None` on an empty
    /// ranking structure.
    fn get_best_order_id(&self) -> (r: Option<u64>)
        ensures
            match r {
                Some(id) => self@.entries.len() > 0 && id == self@.entries[best_idx(
                    self@.entries,
                    self@.side,
                )].id,
                None => self@.entries.len() == 0,
            },
    {
        match Self::best_entry_index(&self.index_queue, self.order_side) {
            Some(b) => Some(self.index_queue[b].id),
            None => None,
        }
    }

    /// Discards top-ranked entries whose record is gone, until a live entry
    /// surfaces or the ranking structure is empty.
    #[verifier::loop_isolation(false)]
    fn purge_top(&mut self)
        ensures
            final(self)@.side == old(self)@.side,
            final(self)@.records == old(self)@.records,
            final(self)@.entries == purged(
                old(self)@.entries,
                old(self)@.records.dom(),
                old(self)@.side,
            ),
    {
        let ghost m0 = self@;
        loop
            invariant
                self@.side == m0.side,
                self@.records == m0.records,
                purged(self@.entries, m0.records.dom(), m0.side) == purged(
                    m0.entries,
                    m0.records.dom(),
                    m0.side,
                ),
            decreases self@.entries.len(),
        {
            match Self::best_entry_index(&self.index_queue, self.order_side) {
                None => {
                    return ;
                },
                Some(b) => {
                    let id = self.index_queue[b].id;
                    if self.orders.contains_key(&id) {
                        return ;
                    }
                    self.index_queue.remove(b);
                },
            }
        }
    }

    /// Returns the live order ranked highest, discarding any tombstoned
    /// entries in the way; `None` exactly when no live order remains. The
    /// records are never changed, so an absent result stays absent on a
    /// repeated call.
    pub fn peek(&mut self) -> (r: Option<&Order<Symbol>>)
        ensures
            final(self)@.side == old(self)@.side,
            final(self)@.records == old(self)@.records,
            final(self)@.entries == purged(
                old(self)@.entries,
                old(self)@.records.dom(),
                old(self)@.side,
            ),
            ({
                let m = final(self)@;
                match r {
                    Some(o) => m.entries.len() > 0 && m.records.dom().contains(
                        m.entries[best_idx(m.entries, m.side)].id,
                    ) && *o == m.records[m.entries[best_idx(m.entries, m.side)].id],
                    None => m.entries.len() == 0,
                }
            }),
            old(self)@.inv() ==> final(self)@.inv(),
            old(self)@.inv() ==> ((r is None) <==> final(self)@.records.dom() == Set::<
                u64,
            >::empty()),
            old(self)@.inv() && old(self)@.tight() ==> final(self)@ == old(self)@ && final(self)@.tight(),
            old(self)@.price_synced() ==> final(self)@.price_synced(),
    {
        proof {
            lemma_purged(self@.entries, self@.records.dom(), self@.side);
            if self@.inv() && self@.tight() && self@.entries.len() > 0 {
                lemma_best_idx(self@.entries, self@.side);
            }
        }
        self.purge_top();
        proof {
            queue_facts_after_purge(old(self)@, self@);
        }
        match Self::best_entry_index(&self.index_queue, self.order_side) {
            None => None,
            Some(b) => {
                let id = self.index_queue[b].id;
                self.orders.get(&id)
            },
        }
    }

    /// Inserts a new request: rejected without any change if an order with
    /// the same id is already recorded; otherwise a ranking entry is derived
    /// from the request and both the entry and the record are added.
    pub fn insert(&mut self, order_request: OrderRequest<Symbol>) -> (r: bool)
        ensures
            final(self)@.side == old(self)@.side,
            old(self)@.records.dom().contains(order_request.order.id) ==> r == false && final(self)@ == old(self)@,
            !old(self)@.records.dom().contains(order_request.order.id) ==> r == true && final(self)@.entries == old(self)@.entries.push(
                OrderIndex {
                    id: order_request.order.id,
                    price: order_request.order.price,
                    timestamp: order_request.timestamp,
                    order_side: old(self)@.side,
                },
            ) && final(self)@.records == old(self)@.records.insert(
                order_request.order.id,
                order_request.order,
            ),
            old(self)@.inv() ==> final(self)@.inv(),
            old(self)@.inv() && old(self)@.tight() && !old(self)@.records.dom().contains(
                order_request.order.id,
            ) ==> final(self)@.tight(),
            old(self)@.price_synced() && !old(self)@.has_entry(order_request.order.id) ==> final(self)@.price_synced(),
    {
        if self.orders.contains_key(&order_request.order.id) {
            return false;
        }
        self.index_queue.push(
            OrderIndex {
                id: order_request.order.id,
                price: order_request.order.price,
                timestamp: order_request.timestamp,
                order_side: self.order_side,
            },
        );
        self.orders.insert(order_request.order.id, order_request.order);
        proof {
            if old(self)@.inv() {
                assert forall|id: u64| #[trigger]
                    self@.records.dom().contains(id) implies self@.has_entry(id) by {
                    if id == order_request.order.id {
                        assert((self@.entries[self@.entries.len() - 1]).id == id);
                    } else {
                        assert(old(self)@.records.dom().contains(id));
                        assert(old(self)@.has_entry(id));
                        let i = choose|i: int|
                            0 <= i < old(self)@.entries.len() && (#[trigger] old(self)@.entries[i]).id == id;
                        assert(self@.entries[i] == old(self)@.entries[i]);
                        assert((self@.entries[i]).id == id);
                    }
                };
            }
        }
        true
    }

    /// Removes and returns the live order ranked highest, discarding any
    /// tombstoned entries in the way; `None` exactly when no live order
    /// remains.
    pub fn pop(&mut self) -> (r: Option<Order<Symbol>>)
        ensures
            final(self)@.side == old(self)@.side,
            ({
                let m = old(self)@;
                let p = purged(m.entries, m.records.dom(), m.side);
                match r {
                    Some(o) => ({
                        let b = best_idx(p, m.side);
                        let key = p[b].id;
                        &&& p.len() > 0
                        &&& m.records.dom().contains(key)
                        &&& o == m.records[key]
                        &&& final(self)@.entries == p.remove(b)
                        &&& final(self)@.records == m.records.remove(key)
                    }),
                    None => p.len() == 0 && final(self)@.entries == p && final(self)@.records
                        == m.records,
                }
            }),
            old(self)@.inv() ==> final(self)@.inv(),
            old(self)@.inv() ==> ((r is Some) <==> old(self)@.records.dom() != Set::<
                u64,
            >::empty()),
            old(self)@.inv() && old(self)@.tight() ==> final(self)@.tight(),
            old(self)@.price_synced() ==> final(self)@.price_synced(),
    {
        self.purge_top();
        proof {
            queue_facts_after_purge(old(self)@, self@);
        }
        let ghost mp = self@;
        match Self::best_entry_index(&self.index_queue, self.order_side) {
            None => None,
            Some(b) => {
                let e = self.index_queue.remove(b);
                let r = self.orders.remove(&e.id);
                proof {
                    queue_facts_after_take(old(self)@, mp, self@, b as int);
                }
                r
            },
        }
    }

    /// Rebuilds the ranking entry for `id`: every existing entry carrying the
    /// id is filtered out of the ranking structure and one fresh entry is
    /// pushed. The records are untouched.
    fn rebuild_index(&mut self, id: u64, price: u64, timestamp: u64)
        ensures
            final(self)@.side == old(self)@.side,
            final(self)@.records == old(self)@.records,
            final(self)@.entries == drop_entries_of(old(self)@.entries, id).push(
                OrderIndex { id, price, timestamp, order_side: old(self)@.side },
            ),
    {
        let mut kept: Vec<OrderIndex> = Vec::new();
        let mut i: usize = 0;
        while i < self.index_queue.len()
            invariant
                0 <= i <= self.index_queue@.len(),
                kept@ == drop_entries_of(self.index_queue@.take(i as int), id),
            decreases self.index_queue@.len() - i,
        {
            proof {
                assert(self.index_queue@.take(i as int + 1).drop_last() =~= self.index_queue@.take(
                    i as int,
                ));
                assert(self.index_queue@.take(i as int + 1).last() == self.index_queue@[i as int]);
            }
            let e = self.index_queue[i];
            if e.id != id {
                kept.push(e);
            }
            i = i + 1;
        }
        proof {
            assert(self.index_queue@.take(self.index_queue@.len() as int) =~= self.index_queue@);
        }
        kept.push(OrderIndex { id, price, timestamp, order_side: self.order_side });
        self.index_queue = kept;
    }

    /// Amends the order recorded under `id`: the record is replaced by
    /// `order`, and the ranking entry for `id` is rebuilt with `price` and the
    /// fresh arrival instant `timestamp`, so the amended order loses its old
    /// queue position. Rejected without any change if `id` is not recorded.
    pub fn amend(&mut self, id: u64, price: u64, order: Order<Symbol>, timestamp: u64) -> (r: bool)
        ensures
            final(self)@.side == old(self)@.side,
            !old(self)@.records.dom().contains(id) ==> r == false && final(self)@ == old(self)@,
            old(self)@.records.dom().contains(id) ==> r == true && final(self)@.records == old(self)@.records.insert(id, order) && final(self)@.entries == drop_entries_of(
                old(self)@.entries,
                id,
            ).push(OrderIndex { id, price, timestamp, order_side: old(self)@.side }),
            old(self)@.inv() ==> final(self)@.inv(),
            old(self)@.inv() && old(self)@.tight() ==> final(self)@.tight(),
            old(self)@.price_synced() && order.price == price ==> final(self)@.price_synced(),
    {
        if self.orders.contains_key(&id) {
            self.orders.insert(id, order);
            self.rebuild_index(id, price, timestamp);
            proof {
                queue_facts_after_amend(old(self)@, self@, id, price, timestamp, order);
            }
            true
        } else {
            false
        }
    }

    /// Replaces the order record behind the top-ranked entry with `new_order`
    /// without touching its ranking entry, preserving its queue position;
    /// used when a partial fill reduces the quantity of the best resting
    /// order. Rejected if the ranking structure is empty or its top entry is
    /// a tombstone.
    pub fn alter_head(&mut self, new_order: Order<Symbol>) -> (r: bool)
        ensures
            final(self)@.side == old(self)@.side,
            final(self)@.entries == old(self)@.entries,
            ({
                let m = old(self)@;
                if m.entries.len() > 0 && m.records.dom().contains(
                    m.entries[best_idx(m.entries, m.side)].id,
                ) {
                    r == true && final(self)@.records == m.records.insert(
                        m.entries[best_idx(m.entries, m.side)].id,
                        new_order,
                    )
                } else {
                    r == false && final(self)@ == old(self)@
                }
            }),
            old(self)@.inv() ==> final(self)@.inv(),
            old(self)@.inv() && old(self)@.tight() ==> final(self)@.tight(),
            old(self)@.price_synced() && ({
                let m = old(self)@;
                m.entries.len() > 0 && m.records.dom().contains(
                    m.entries[best_idx(m.entries, m.side)].id,
                ) ==> new_order.price == m.records[m.entries[best_idx(m.entries, m.side)].id].price
            }) ==> final(self)@.price_synced(),
    {
        match self.get_best_order_id() {
            Some(order_id) => {
                if self.orders.contains_key(&order_id) {
                    self.orders.insert(order_id, new_order);
                    proof {
                        let m0 = old(self)@;
                        let key = m0.entries[best_idx(m0.entries, m0.side)].id;
                        assert(self@.records.dom() =~= m0.records.dom());
                        if m0.inv() {
                            assert forall|id: u64| #[trigger]
                                self@.records.dom().contains(id) implies self@.has_entry(id) by {
                                assert(m0.records.dom().contains(id));
                                assert(m0.has_entry(id));
                            };
                        }
                        if m0.price_synced() && new_order.price == m0.records[key].price {
                            assert forall|i: int|
                                0 <= i < self@.entries.len() && self@.live(i) implies (
                            #[trigger] self@.entries[i]).price
                                == self@.records[self@.entries[i].id].price by {
                                assert(m0.entries[i].price == m0.records[m0.entries[i].id].price);
                            };
                        }
                    }
                    true
                } else {
                    false
                }
            },
            None => false,
        }
    }
}

/// Replacing the record under `id` and rebuilding its ranking entry keeps
/// the queue well-formed, keeps it free of tombstones and duplicate ids if
/// it was free of them, and keeps entry prices in sync with record prices
/// when the fresh entry quotes the amended order's own price.
proof fn queue_facts_after_amend<Symbol>(
    m0: QueueModel<Symbol>,
    m1: QueueModel<Symbol>,
    id: u64,
    price: u64,
    timestamp: u64,
    order: Order<Symbol>,
)
    requires
        m0.records.dom().contains(id),
        m1.side == m0.side,
        m1.records == m0.records.insert(id, order),
        m1.entries == drop_entries_of(m0.entries, id).push(
            OrderIndex { id, price, timestamp, order_side: m0.side },
        ),
    ensures
        m0.inv() ==> m1.inv(),
        m0.inv() && m0.tight() ==> m1.tight(),
        m0.price_synced() && order.price == price ==> m1.price_synced(),
{
    lemma_drop_entries_of(m0.entries, id);
    let out = drop_entries_of(m0.entries, id);
    let last = m1.entries.len() - 1;
    assert(m1.records.dom() =~= m0.records.dom());
    if m0.inv() {
        assert forall|id2: u64| #[trigger]
            m1.records.dom().contains(id2) implies m1.has_entry(id2) by {
            if id2 == id {
                assert((m1.entries[last]).id == id2);
            } else {
                assert(m0.records.dom().contains(id2));
                assert(m0.has_entry(id2));
                let j = choose|j: int|
                    0 <= j < m0.entries.len() && (#[trigger] m0.entries[j]).id == id2;
                let k = choose|k: int| 0 <= k < out.len() && out[k] == m0.entries[j];
                assert((m1.entries[k]).id == id2);
            }
        };
        assert forall|i: int| 0 <= i < m1.entries.len() implies (#[trigger] m1.entries[i]).order_side
            == m1.side by {
            if i < last {
                assert(m1.entries[i] == out[i]);
                let j = choose|j: int| 0 <= j < m0.entries.len() && m0.entries[j] == out[i];
                assert(m0.entries[j].order_side == m0.side);
            }
        };
    }
    if m0.inv() && m0.tight() {
        assert forall|i: int| 0 <= i < m1.entries.len() implies m1.records.dom().contains(
            (#[trigger] m1.entries[i]).id,
        ) by {
            if i < last {
                assert(m1.entries[i] == out[i]);
                let j = choose|j: int| 0 <= j < m0.entries.len() && m0.entries[j] == out[i];
                assert(m0.records.dom().contains(m0.entries[j].id));
            }
        };
        assert forall|i: int, j: int|
            0 <= i < m1.entries.len() && 0 <= j < m1.entries.len() && i != j implies (
        #[trigger] m1.entries[i]).id != (#[trigger] m1.entries[j]).id by {
            if i < last && j < last {
                assert(m1.entries[i] == out[i] && m1.entries[j] == out[j]);
            } else if i < last {
                assert(m1.entries[i] == out[i] && out[i].id != id);
            } else if j < last {
                assert(m1.entries[j] == out[j] && out[j].id != id);
            }
        };
    }
    if m0.price_synced() && order.price == price {
        assert forall|i: int|
            0 <= i < m1.entries.len() && m1.live(i) implies (#[trigger] m1.entries[i]).price
            == m1.records[m1.entries[i].id].price by {
            if i < last {
                assert(m1.entries[i] == out[i]);
                let j = choose|j: int| 0 <= j < m0.entries.len() && m0.entries[j] == out[i];
                assert(out[i].id != id);
                assert(m0.live(j));
                assert(m0.entries[j].price == m0.records[m0.entries[j].id].price);
            }
        };
    }
}

/// After the tombstones at the top are discarded, well-formedness, sync of
/// entry prices with record prices, and (for a queue that had no tombstones
/// at all) the exact contents all carry over.
proof fn queue_facts_after_purge<Symbol>(m0: QueueModel<Symbol>, m1: QueueModel<Symbol>)
    requires
        m1.side == m0.side,
        m1.records == m0.records,
        m1.entries == purged(m0.entries, m0.records.dom(), m0.side),
    ensures
        m1.entries.len() > 0 ==> m1.records.dom().contains(
            m1.entries[best_idx(m1.entries, m1.side)].id,
        ),
        m0.inv() ==> m1.inv(),
        m0.inv() ==> (m1.entries.len() == 0 <==> m0.records.dom() == Set::<u64>::empty()),
        m0.inv() && m0.tight() ==> m1 == m0 && m1.tight(),
        m0.price_synced() ==> m1.price_synced(),
{
    lemma_purged(m0.entries, m0.records.dom(), m0.side);
    if m0.inv() {
        assert forall|id: u64| #[trigger]
            m1.records.dom().contains(id) implies m1.has_entry(id) by {
            assert(seq_has_id(m0.entries, id));
            assert(seq_has_id(m1.entries, id));
        };
        if m1.entries.len() == 0 {
            assert forall|id: u64| !(#[trigger] m0.records.dom().contains(id)) by {
                if m0.records.dom().contains(id) {
                    assert(seq_has_id(m0.entries, id));
                    assert(seq_has_id(m1.entries, id));
                }
            };
            assert(m0.records.dom() =~= Set::<u64>::empty());
        }
    }
    if m0.inv() {
        assert forall|k: int| 0 <= k < m1.entries.len() implies (#[trigger] m1.entries[k]).order_side
            == m1.side by {
            assert(m1.entries[k] == purged(m0.entries, m0.records.dom(), m0.side)[k]);
            let i = choose|i: int| 0 <= i < m0.entries.len() && m0.entries[i] == m1.entries[k];
            assert(m0.entries[i].order_side == m0.side);
        };
    }
    if m0.price_synced() {
        assert forall|k: int|
            0 <= k < m1.entries.len() && m1.live(k) implies (#[trigger] m1.entries[k]).price
            == m1.records[m1.entries[k].id].price by {
            assert(m1.entries[k] == purged(m0.entries, m0.records.dom(), m0.side)[k]);
            let i = choose|i: int| 0 <= i < m0.entries.len() && m0.entries[i] == m1.entries[k];
            assert(m0.live(i));
            assert(m0.entries[i].price == m0.records[m0.entries[i].id].price);
        };
    }
    if m0.inv() && m0.tight() {
        if m0.entries.len() > 0 {
            lemma_best_idx(m0.entries, m0.side);
            assert(m0.records.dom().contains(m0.entries[best_idx(m0.entries, m0.side)].id));
        }
        assert(m1.entries == m0.entries);
    }
}

/// Removing the top live entry together with its record keeps the queue
/// well-formed: every other recorded id keeps a ranking entry, prices stay
/// in sync, and a queue without tombstones stays without them.
proof fn queue_facts_after_take<Symbol>(
    m0: QueueModel<Symbol>,
    mp: QueueModel<Symbol>,
    m1: QueueModel<Symbol>,
    b: int,
)
    requires
        mp.side == m0.side,
        mp.records == m0.records,
        mp.entries == purged(m0.entries, m0.records.dom(), m0.side),
        mp.entries.len() > 0,
        b == best_idx(mp.entries, mp.side),
        mp.records.dom().contains(mp.entries[b].id),
        m1.side == mp.side,
        m1.entries == mp.entries.remove(b),
        m1.records == mp.records.remove(mp.entries[b].id),
    ensures
        m0.inv() ==> m1.inv(),
        m0.inv() && m0.tight() ==> m1.tight(),
        m0.price_synced() ==> m1.price_synced(),
{
    let key = mp.entries[b].id;
    lemma_best_idx(mp.entries, mp.side);
    queue_facts_after_purge(m0, mp);
    if m0.inv() {
        assert forall|id: u64| #[trigger]
            m1.records.dom().contains(id) implies m1.has_entry(id) by {
            assert(mp.records.dom().contains(id) && id != key);
            assert(seq_has_id(mp.entries, id));
            let i = choose|i: int| 0 <= i < mp.entries.len() && (#[trigger] mp.entries[i]).id == id;
            if i < b {
                assert(m1.entries[i].id == id);
            } else {
                assert(i != b);
                assert(m1.entries[i - 1] == mp.entries[i]);
            }
        };
        assert forall|k: int| 0 <= k < m1.entries.len() implies (#[trigger] m1.entries[k]).order_side
            == m1.side by {
            if k < b {
                assert(m1.entries[k] == mp.entries[k]);
            } else {
                assert(m1.entries[k] == mp.entries[k + 1]);
            }
        };
    }
    if m0.inv() && m0.tight() {
        assert forall|k: int| 0 <= k < m1.entries.len() implies m1.records.dom().contains(
            (#[trigger] m1.entries[k]).id,
        ) && (forall|j: int|
            0 <= j < m1.entries.len() && j != k ==> (#[trigger] m1.entries[j]).id
                != m1.entries[k].id) by {
            assert(mp == m0);
            assert forall|j: int|
                0 <= j < m1.entries.len() && j != k implies (#[trigger] m1.entries[j]).id
                    != m1.entries[k].id by {
                let kk: int = if k < b { k } else { k + 1 };
                let jj: int = if j < b { j } else { j + 1 };
                assert(m1.entries[k] == mp.entries[kk]);
                assert(m1.entries[j] == mp.entries[jj]);
            };
            let kk: int = if k < b { k } else { k + 1 };
            assert(m1.entries[k] == mp.entries[kk]);
            assert(kk != b);
        };
    }
    if m0.price_synced() {
        assert forall|k: int|
            0 <= k < m1.entries.len() && m1.live(k) implies (#[trigger] m1.entries[k]).price
            == m1.records[m1.entries[k].id].price by {
            let kk: int = if k < b { k } else { k + 1 };
            assert(m1.entries[k] == mp.entries[kk]);
            assert(mp.entries[kk].id != key);
        };
    }
}

/// Price priority: among the orders recorded in a well-formed, price-synced
/// queue whose top-ranked entry is live, the order reached through that top
/// entry has the best price — the highest of any recorded order on the bid
/// side, the lowest on the ask side.
pub proof fn lemma_price_priority<Symbol>(m: QueueModel<Symbol>, id: u64)
    requires
        m.inv(),
        m.price_synced(),
        m.entries.len() > 0,
        m.records.dom().contains(m.entries[best_idx(m.entries, m.side)].id),
        m.records.dom().contains(id),
    ensures
        ({
            let top = m.records[m.entries[best_idx(m.entries, m.side)].id];
            match m.side {
                Side::Bid => m.records[id].price <= top.price,
                Side::Ask => m.records[id].price >= top.price,
            }
        }),
{
    lemma_best_idx(m.entries, m.side);
    let b = best_idx(m.entries, m.side);
    assert(m.has_entry(id));
    let i = choose|i: int| 0 <= i < m.entries.len() && (#[trigger] m.entries[i]).id == id;
    assert(ranks_at_least(m.side, m.entries[b], m.entries[i]));
    assert(m.live(i));
    assert(m.entries[i].price == m.records[id].price);
    assert(m.entries[b].price == m.records[m.entries[b].id].price);
}

/// Time priority at equal price: the top-ranked entry carries a timestamp no
/// later than any other entry quoting the same price, so of two same-side
/// orders at one price the earlier arrival is surfaced first.
pub proof fn lemma_time_priority(s: Seq<OrderIndex>, side: Side, j: int)
    requires
        s.len() > 0,
        0 <= j < s.len(),
        s[best_idx(s, side)].price == s[j].price,
    ensures
        s[best_idx(s, side)].timestamp <= s[j].timestamp,
{
    lemma_best_idx(s, side);
    assert(ranks_at_least(side, s[best_idx(s, side)], s[j]));
}

/// The order `o` with its remaining quantity cut down by `qty`.
pub open spec fn reduced<Symbol>(o: Order<Symbol>, qty: u64) -> Order<Symbol> {
    Order {
        id: o.id,
        order_symbol: o.order_symbol,
        price_symbol: o.price_symbol,
        price: o.price,
        quantity: (o.quantity - qty) as u64,
        side: o.side,
    }
}

/// Exact match consumption: a market request whose quantity equals that of
/// the best live resting order removes that order entirely — its record and
/// its ranking entry — and leaves no remainder, so the request is reported
/// filled and a later read surfaces the next-best order.
pub proof fn lemma_exact_match<Symbol>(m: QueueModel<Symbol>, qty: u64)
    requires
        m.entries.len() > 0,
        m.records.dom().contains(m.entries[best_idx(m.entries, m.side)].id),
        qty == m.records[m.entries[best_idx(m.entries, m.side)].id].quantity,
    ensures
        m.consume(qty).1 == 0,
        m.consume(qty).0.entries == m.entries.remove(best_idx(m.entries, m.side)),
        m.consume(qty).0.records == m.records.remove(m.entries[best_idx(m.entries, m.side)].id),
{
}

/// Partial consumption preserves priority: a market request smaller than the
/// best live resting order reduces that order's quantity in place, leaves no
/// remainder, and moves no ranking entry, so the reduced order keeps its
/// queue position.
pub proof fn lemma_partial_consumption<Symbol>(m: QueueModel<Symbol>, qty: u64)
    requires
        m.entries.len() > 0,
        m.records.dom().contains(m.entries[best_idx(m.entries, m.side)].id),
        qty < m.records[m.entries[best_idx(m.entries, m.side)].id].quantity,
    ensures
        m.consume(qty).1 == 0,
        m.consume(qty).0.entries == m.entries,
        m.consume(qty).0.records == m.records.insert(
            m.entries[best_idx(m.entries, m.side)].id,
            reduced(m.records[m.entries[best_idx(m.entries, m.side)].id], qty),
        ),
{
}

/// Discarding the tombstones at the top first does not change what a market
/// request consumes.
proof fn lemma_consume_purged<Symbol>(m: QueueModel<Symbol>, qty: u64)
    ensures
        (QueueModel {
            side: m.side,
            entries: purged(m.entries, m.records.dom(), m.side),
            records: m.records,
        }).consume(qty) == m.consume(qty),
    decreases m.entries.len(),
{
    if m.entries.len() > 0 {
        lemma_best_idx(m.entries, m.side);
        let b = best_idx(m.entries, m.side);
        if !m.records.dom().contains(m.entries[b].id) {
            let m2 = QueueModel { side: m.side, entries: m.entries.remove(b), records: m.records };
            lemma_consume_purged(m2, qty);
        }
    }
}

/// The private matching loop: consumes resting liquidity of `queue` with a
/// market request of quantity `qty`, and returns the unmatched remainder.
#[verifier::loop_isolation(false)]
fn match_market<Symbol: Copy>(queue: &mut OrderQueue<Symbol>, qty: u64) -> (rem: u64)
    ensures
        final(queue)@ == old(queue)@.consume(qty).0,
        rem == old(queue)@.consume(qty).1,
        final(queue)@.side == old(queue)@.side,
        old(queue)@.inv() ==> final(queue)@.inv(),
        old(queue)@.inv() && old(queue)@.tight() ==> final(queue)@.tight(),
        old(queue)@.price_synced() ==> final(queue)@.price_synced(),
{
    let mut rem = qty;
    let ghost m0 = queue@;
    loop
        invariant
            queue@.consume(rem) == m0.consume(qty),
            queue@.side == m0.side,
            m0.inv() ==> queue@.inv(),
            m0.inv() && m0.tight() ==> queue@.tight(),
            m0.price_synced() ==> queue@.price_synced(),
        decreases queue@.entries.len(),
    {
        let ghost mpre = queue@;
        let top = match queue.peek() {
            Some(o) => Some(*o),
            None => None,
        };
        proof {
            lemma_consume_purged(mpre, rem);
            lemma_purged(mpre.entries, mpre.records.dom(), mpre.side);
        }
        match top {
            None => {
                assert(queue@.consume(rem) == (queue@, rem));
                return rem;
            },
            Some(o) => {
                let ghost mp = queue@;
                let ghost key = mp.entries[best_idx(mp.entries, mp.side)].id;
                if rem < o.quantity {
                    let new_order = Order {
                        id: o.id,
                        order_symbol: o.order_symbol,
                        price_symbol: o.price_symbol,
                        price: o.price,
                        quantity: o.quantity - rem,
                        side: o.side,
                    };
                    queue.alter_head(new_order);
                    proof {
                        assert(new_order == reduced(mp.records[key], rem));
                        assert(mp.consume(rem) == (queue@, 0u64));
                    }
                    return 0;
                } else {
                    let popped = queue.pop();
                    proof {
                        lemma_best_idx(mp.entries, mp.side);
                        assert(purged(mp.entries, mp.records.dom(), mp.side) == mp.entries);
                        assert(popped is Some);
                    }
                    if rem == o.quantity {
                        proof {
                            assert(mp.consume(rem) == (queue@, 0u64));
                        }
                        return 0;
                    }
                    proof {
                        assert(mp.consume(rem) == queue@.consume((rem - o.quantity) as u64));
                    }
                    rem = rem - o.quantity;
                }
            },
        }
    }
}

/// The outcome taxonomy reported for a handled request.
#[derive(Clone, Copy, Debug, PartialEq, Eq, Structural)]
pub enum OrderBookResponse {
    Filled,
    PartiallyFilled,
    Unfulfilled,
    Rejected,
}

/// The queue `m` after a request is rested in it: a ranking entry derived
/// from the request is pushed and the order is recorded under its id.
pub open spec fn queue_after_insert<Symbol>(
    m: QueueModel<Symbol>,
    req: OrderRequest<Symbol>,
) -> QueueModel<Symbol> {
    QueueModel {
        side: m.side,
        entries: m.entries.push(
            OrderIndex {
                id: req.order.id,
                price: req.order.price,
                timestamp: req.timestamp,
                order_side: m.side,
            },
        ),
        records: m.records.insert(req.order.id, req.order),
    }
}

/// A limit request always rests in its own side's queue; a duplicate id is
/// rejected without any change.
pub open spec fn limit_step<Symbol>(
    same: QueueModel<Symbol>,
    req: OrderRequest<Symbol>,
) -> (QueueModel<Symbol>, OrderBookResponse) {
    if same.records.dom().contains(req.order.id) {
        (same, OrderBookResponse::Rejected)
    } else {
        (queue_after_insert(same, req), OrderBookResponse::Unfulfilled)
    }
}

/// A market request consumes the opposite queue; a remainder that found no
/// liquidity rests in the request's own side's queue, reported as Unfulfilled
/// when nothing at all was matched and as PartiallyFilled when something was,
/// or Rejected when the request's id already rests there.
pub open spec fn market_step<Symbol>(
    same: QueueModel<Symbol>,
    opp: QueueModel<Symbol>,
    req: OrderRequest<Symbol>,
) -> (QueueModel<Symbol>, QueueModel<Symbol>, OrderBookResponse) {
    let c = opp.consume(req.order.quantity);
    if c.1 == 0 {
        (same, c.0, OrderBookResponse::Filled)
    } else if same.records.dom().contains(req.order.id) {
        (same, c.0, OrderBookResponse::Rejected)
    } else {
        let rest = OrderRequest {
            order: Order {
                id: req.order.id,
                order_symbol: req.order.order_symbol,
                price_symbol: req.order.price_symbol,
                price: req.order.price,
                quantity: c.1,
                side: req.order.side,
            },
            order_type: req.order_type,
            timestamp: req.timestamp,
        };
        if c.1 == req.order.quantity {
            (queue_after_insert(same, rest), c.0, OrderBookResponse::Unfulfilled)
        } else {
            (queue_after_insert(same, rest), c.0, OrderBookResponse::PartiallyFilled)
        }
    }
}

/// One handled request, seen from the request's own side: the first queue is
/// the resting destination, the second the matching source.
pub open spec fn side_step<Symbol>(
    same: QueueModel<Symbol>,
    opp: QueueModel<Symbol>,
    req: OrderRequest<Symbol>,
) -> (QueueModel<Symbol>, QueueModel<Symbol>, OrderBookResponse) {
    match req.order_type {
        OrderType::Limit => {
            let l = limit_step(same, req);
            (l.0, opp, l.1)
        },
        OrderType::Market => market_step(same, opp, req),
    }
}

fn handle_sides<Symbol: Copy>(
    same: &mut OrderQueue<Symbol>,
    opp: &mut OrderQueue<Symbol>,
    order_request: OrderRequest<Symbol>,
) -> (r: OrderBookResponse)
    ensures
        ({
            let step = side_step(old(same)@, old(opp)@, order_request);
            final(same)@ == step.0 && final(opp)@ == step.1 && r == step.2
        }),
        final(same)@.side == old(same)@.side,
        final(opp)@.side == old(opp)@.side,
        old(same)@.inv() ==> final(same)@.inv(),
        old(same)@.inv() && old(same)@.tight() ==> final(same)@.tight(),
        old(same)@.inv() && old(same)@.tight() && old(same)@.price_synced() ==> final(same)@.price_synced(),
        old(opp)@.inv() ==> final(opp)@.inv(),
        old(opp)@.inv() && old(opp)@.tight() ==> final(opp)@.tight(),
        old(opp)@.price_synced() ==> final(opp)@.price_synced(),
{
    match order_request.order_type {
        OrderType::Limit => {
            if same.insert(order_request) {
                OrderBookResponse::Unfulfilled
            } else {
                OrderBookResponse::Rejected
            }
        },
        OrderType::Market => {
            let rem = match_market(opp, order_request.order.quantity);
            if rem == 0 {
                OrderBookResponse::Filled
            } else {
                let rest = OrderRequest {
                    order: Order {
                        id: order_request.order.id,
                        order_symbol: order_request.order.order_symbol,
                        price_symbol: order_request.order.price_symbol,
                        price: order_request.order.price,
                        quantity: rem,
                        side: order_request.order.side,
                    },
                    order_type: order_request.order_type,
                    timestamp: order_request.timestamp,
                };
                if same.insert(rest) {
                    if rem == order_request.order.quantity {
                        OrderBookResponse::Unfulfilled
                    } else {
                        OrderBookResponse::PartiallyFilled
                    }
                } else {
                    OrderBookResponse::Rejected
                }
            }
        },
    }
}

/// Exactly two order queues, one per side, for one instrument pair fixed at
/// construction; the queues are the only mutable state.
pub struct OrderBook<Symbol> {
    order_symbol: Symbol,
    price_symbol: Symbol,
    bid_queue: OrderQueue<Symbol>,
    ask_queue: OrderQueue<Symbol>,
}

impl<Symbol> OrderBook<Symbol> {
    /// The bid queue's mathematical content.
    pub closed spec fn bid(self) -> QueueModel<Symbol> {
        self.bid_queue@
    }

    /// The ask queue's mathematical content.
    pub closed spec fn ask(self) -> QueueModel<Symbol> {
        self.ask_queue@
    }

    /// The instrument leg being traded.
    pub closed spec fn spec_order_symbol(self) -> Symbol {
        self.order_symbol
    }

    /// The instrument leg prices are quoted in.
    pub closed spec fn spec_price_symbol(self) -> Symbol {
        self.price_symbol
    }

    /// Well-formedness: each queue serves its own side, is well-formed,
    /// carries no tombstones or duplicate ids, and quotes record prices in
    /// its ranking entries. Construction establishes it and every operation
    /// preserves it.
    pub open spec fn wf(self) -> bool {
        &&& self.bid().side == Side::Bid
        &&& self.ask().side == Side::Ask
        &&& self.bid().inv() && self.bid().tight() && self.bid().price_synced()
        &&& self.ask().inv() && self.ask().tight() && self.ask().price_synced()
    }
}

impl<Symbol: Copy> OrderBook<Symbol> {
    /// Creates an empty book for the instrument pair, fixed for the
    /// instance's lifetime.
    pub fn new(order_symbol: Symbol, price_symbol: Symbol) -> (b: Self)
        ensures
            b.wf(),
            b.spec_order_symbol() == order_symbol,
            b.spec_price_symbol() == price_symbol,
            b.bid().entries == Seq::<OrderIndex>::empty(),
            b.bid().records == Map::<u64, Order<Symbol>>::empty(),
            b.ask().entries == Seq::<OrderIndex>::empty(),
            b.ask().records == Map::<u64, Order<Symbol>>::empty(),
    {
        OrderBook {
            order_symbol,
            price_symbol,
            bid_queue: OrderQueue::new(Side::Bid, 1000),
            ask_queue: OrderQueue::new(Side::Ask, 1000),
        }
    }

    /// The single mutation entry point: rests a limit request in its own
    /// side's queue, or matches a market request against the opposite side,
    /// as `side_step` lays out.
    pub fn handle_request(&mut self, order_request: OrderRequest<Symbol>) -> (r: OrderBookResponse)
        requires
            old(self).wf(),
        ensures
            final(self).wf(),
            final(self).spec_order_symbol() == old(self).spec_order_symbol(),
            final(self).spec_price_symbol() == old(self).spec_price_symbol(),
            ({
                let same0 = if order_request.order.side == Side::Bid {
                    old(self).bid()
                } else {
                    old(self).ask()
                };
                let opp0 = if order_request.order.side == Side::Bid {
                    old(self).ask()
                } else {
                    old(self).bid()
                };
                let step = side_step(same0, opp0, order_request);
                &&& r == step.2
                &&& (order_request.order.side == Side::Bid ==> final(self).bid() == step.0 && final(self).ask() == step.1)
                &&& (order_request.order.side == Side::Ask ==> final(self).ask() == step.0 && final(self).bid() == step.1)
            }),
    {
        match order_request.order.side {
            Side::Ask => handle_sides(&mut self.ask_queue, &mut self.bid_queue, order_request),
            Side::Bid => handle_sides(&mut self.bid_queue, &mut self.ask_queue, order_request),
        }
    }

    /// The best bid and ask prices, independent of matching: `None` when
    /// either side holds no order, otherwise the highest recorded bid price
    /// paired with the lowest recorded ask price. The book is left unchanged,
    /// so an absent spread stays absent on a repeated call.
    pub fn current_spread(&mut self) -> (r: Option<(u64, u64)>)
        requires
            old(self).wf(),
        ensures
            final(self).wf(),
            final(self).bid() == old(self).bid(),
            final(self).ask() == old(self).ask(),
            final(self).spec_order_symbol() == old(self).spec_order_symbol(),
            final(self).spec_price_symbol() == old(self).spec_price_symbol(),
            match r {
                Some(pair) => {
                    &&& (exists|id: u64| #[trigger]
                        old(self).bid().records.dom().contains(id) && old(self).bid().records[id].price == pair.0)
                    &&& (forall|id: u64| #[trigger]
                        old(self).bid().records.dom().contains(id) ==> old(self).bid().records[id].price <= pair.0)
                    &&& (exists|id: u64| #[trigger]
                        old(self).ask().records.dom().contains(id) && old(self).ask().records[id].price == pair.1)
                    &&& (forall|id: u64| #[trigger]
                        old(self).ask().records.dom().contains(id) ==> old(self).ask().records[id].price >= pair.1)
                },
                None => old(self).bid().records.dom() == Set::<u64>::empty() || old(self).ask().records.dom() == Set::<u64>::empty(),
            },
    {
        let bid_price = match self.bid_queue.peek() {
            Some(o) => Some(o.price),
            None => None,
        };
        match bid_price {
            None => None,
            Some(b) => {
                match self.ask_queue.peek() {
                    None => None,
                    Some(o) => {
                        let a = o.price;
                        proof {
                            let mb = old(self).bid();
                            let ma = old(self).ask();
                            let kb = best_idx(mb.entries, mb.side);
                            let ka = best_idx(ma.entries, ma.side);
                            assert(mb.records.dom().contains(mb.entries[kb].id) && mb.records[mb.entries[kb].id].price == b);
                            assert(ma.records.dom().contains(ma.entries[ka].id) && ma.records[ma.entries[ka].id].price == a);
                            assert forall|id: u64| #[trigger]
                                mb.records.dom().contains(id) implies mb.records[id].price <= b by {
                                lemma_price_priority(mb, id);
                            };
                            assert forall|id: u64| #[trigger]
                                ma.records.dom().contains(id) implies ma.records[id].price >= a by {
                                lemma_price_priority(ma, id);
                            };
                        }
                        Some((b, a))
                    },
                }
            },
        }
    }
}

} // verus!
