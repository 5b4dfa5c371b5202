//! The order book: on each side the price levels, kept in a sorted map so
//! that the best level is found without a scan.

use crate::amount::{amount_limit, Amount, Total};
use crate::level::PriceLevel;
use crate::model::{best_price, has_best, is_best, is_best_first, rest, Levels};
use crate::order::{Order, Side};
use std::collections::BTreeMap;
use vstd::prelude::*;
use vstd::std_specs::cmp::OrdSpec;
use vstd::std_specs::iter::IteratorSpec;

verus! {

/// The key under which a side files the level at price `p`.  Keys grow as
/// prices get worse: asks are filed by price, bids by the price's distance
/// from the top, so that the best level of either side has the least key.
pub open spec fn rank(side: Side, p: Amount) -> (u128, u128) {
    match side {
        Side::Ask => (p.whole, p.frac),
        Side::Bid => ((u128::MAX - p.whole) as u128, (u128::MAX - p.frac) as u128),
    }
}

/// The price that is filed under key `k`.
pub open spec fn unrank(side: Side, k: (u128, u128)) -> Amount {
    match side {
        Side::Ask => Amount { whole: k.0, frac: k.1 },
        Side::Bid => Amount { whole: (u128::MAX - k.0) as u128, frac: (u128::MAX - k.1) as u128 },
    }
}

/// The order of keys: by the first part, then by the second.
pub open spec fn key_le(a: (u128, u128), b: (u128, u128)) -> bool {
    a.0 < b.0 || (a.0 == b.0 && a.1 <= b.1)
}

/// The key of price `p`.
pub fn rank_key(side: Side, p: Amount) -> (k: (u128, u128))
    ensures
        k == rank(side, p),
{
    match side {
        Side::Ask => (p.whole, p.frac),
        Side::Bid => (u128::MAX - p.whole, u128::MAX - p.frac),
    }
}

/// Keys that a map hands out in increasing order are strictly ordered by
/// [`key_le`].
proof fn lemma_increasing_keys(keys: Seq<(u128, u128)>)
    requires
        vstd::std_specs::btree::increasing_seq(keys),
    ensures
        forall|i: int, j: int|
            0 <= i < j < keys.len() ==> key_le(#[trigger] keys[i], #[trigger] keys[j]) && keys[i]
                != keys[j],
{
    broadcast use vstd::laws_cmp::group_laws_cmp;
    broadcast use vstd::std_specs::btree::group_btree_axioms;

    assert(vstd::laws_cmp::obeys_cmp::<(u128, u128)>());
    assert forall|i: int, j: int| 0 <= i < j < keys.len() implies key_le(
        #[trigger] keys[i],
        #[trigger] keys[j],
    ) && keys[i] != keys[j] by {
        assert(keys[i].cmp_spec(&keys[j]) is Less);
    }
}

/// The least key of the map, or nothing where the map is empty.
fn first_key(levels: &BTreeMap<(u128, u128), PriceLevel>) -> (r: Option<(u128, u128)>)
    ensures
        r is None ==> levels@.dom() == Set::<(u128, u128)>::empty(),
        r is Some ==> levels@.contains_key(r->0) && forall|k: (u128, u128)| #[trigger]
            levels@.contains_key(k) ==> key_le(r->0, k),
{
    let ghost all = levels.iter().remaining();
    let mut found: Option<(u128, u128)> = None;
    for entry in it: levels.iter()
        invariant_except_break
            found is None,
            it.index() == 0,
        invariant
            it.seq() == all,
            vstd::std_specs::btree::increasing_seq(
                all.map_values(|kv: (&(u128, u128), &PriceLevel)| *kv.0),
            ),
        ensures
            found is None ==> all.len() == 0,
            found is Some ==> all.len() > 0 && found->0 == *all[0].0,
    {
        found = Some(*entry.0);
        break ;
    }
    proof {
        let keys = all.map_values(|kv: (&(u128, u128), &PriceLevel)| *kv.0);
        lemma_increasing_keys(keys);
        assert(all.len() == levels@.dom().len());
        if found is None {
            assert(levels@.dom().len() == 0);
            assert(levels@.dom() =~= Set::<(u128, u128)>::empty());
        } else {
            assert(levels@.contains_key(*all[0].0));
            assert forall|k: (u128, u128)| #[trigger] levels@.contains_key(k) implies key_le(
                found->0,
                k,
            ) by {
                assert(all.contains((&k, &levels@[k])));
                let j = choose|j: int| 0 <= j < all.len() && all[j] == (&k, &levels@[k]);
                assert(keys[j] == k);
                assert(keys[0] == found->0);
            }
        }
    }
    found
}

/// One side of the book.
pub struct BookSide {
    side: Side,
    levels: BTreeMap<(u128, u128), PriceLevel>,
}

impl BookSide {
    /// Which side this is.
    pub closed spec fn side(&self) -> Side {
        self.side
    }

    /// The queue of resting orders at each price that has one.
    pub closed spec fn queues(&self) -> Levels {
        Map::new(
            |p: Amount| self.levels@.contains_key(rank(self.side, p)),
            |p: Amount| self.levels@[rank(self.side, p)].queue(),
        )
    }

    /// The total that the level at price `p` keeps.
    pub closed spec fn total_at(&self, p: Amount) -> Total {
        self.levels@[rank(self.side, p)].total()
    }

    /// Every level is filed under the key of its price, is well-formed and
    /// holds at least one order.
    pub closed spec fn wf(&self) -> bool {
        forall|k: (u128, u128)| #[trigger]
            self.levels@.contains_key(k) ==> {
                &&& self.levels@[k].wf()
                &&& rank(self.side, self.levels@[k].price()) == k
                &&& self.levels@[k].queue().len() > 0
            }
    }

    /// What well-formedness says of the levels.
    pub proof fn lemma_wf(&self)
        requires
            self.wf(),
        ensures
            self.queues().dom().finite(),
            forall|p: Amount| #[trigger]
                self.queues().contains_key(p) ==> {
                    &&& p.wf()
                    &&& self.queues()[p].len() > 0
                    &&& self.total_at(p).wf()
                    &&& self.total_at(p).units() <= self.queues()[p].len() * amount_limit()
                },
    {
        let side = self.side;
        self.lemma_level_count();
        assert forall|p: Amount| #[trigger] self.queues().contains_key(p) implies {
            &&& p.wf()
            &&& self.queues()[p].len() > 0
            &&& self.total_at(p).wf()
            &&& self.total_at(p).units() <= self.queues()[p].len() * amount_limit()
        } by {
            let k = rank(side, p);
            assert(self.levels@.contains_key(k));
            self.levels@[k].lemma_wf();
            assert(rank(side, self.levels@[k].price()) == rank(side, p));
        }
    }

    /// A side has finitely many levels: as many as its map has entries.
    proof fn lemma_level_count(&self)
        requires
            self.wf(),
        ensures
            self.queues().dom().finite(),
            self.queues().dom().len() == self.levels@.dom().len(),
    {
        let side = self.side;
        let f = |k: (u128, u128)| unrank(side, k);
        assert(vstd::relations::injective_on(f, self.levels@.dom()));
        assert(self.queues().dom() =~= self.levels@.dom().map(f)) by {
            assert forall|p: Amount| self.queues().dom().contains(p) implies self.levels@.dom().map(
                f,
            ).contains(p) by {
                let k = rank(side, p);
                assert(self.levels@.dom().contains(k) && f(k) == p);
            }
            assert forall|p: Amount| self.levels@.dom().map(f).contains(
                p,
            ) implies self.queues().dom().contains(p) by {
                let k = choose|k: (u128, u128)| self.levels@.dom().contains(k) && f(k) == p;
                assert(rank(side, p) == k);
            }
        }
        vstd::set_lib::lemma_map_size(self.levels@.dom(), self.queues().dom(), f);
    }

    /// An empty side.
    pub fn new(side: Side) -> (r: BookSide)
        ensures
            r.wf(),
            r.side() == side,
            r.queues() == Map::<Amount, Seq<u64>>::empty(),
    {
        let r = BookSide { side, levels: BTreeMap::new() };
        assert(r.queues() =~= Map::<Amount, Seq<u64>>::empty());
        r
    }

    /// The best price and the id of the earliest order that rests at it, or
    /// nothing where the side is empty.
    pub fn best_front(&self) -> (r: Option<(Amount, u64)>)
        requires
            self.wf(),
        ensures
            match r {
                None => self.queues().dom() == Set::<Amount>::empty(),
                Some((price, id)) => is_best(self.queues().dom(), self.side(), price) && id
                    == self.queues()[price][0],
            },
    {
        match first_key(&self.levels) {
            None => {
                assert(self.queues().dom() =~= Set::<Amount>::empty());
                None
            },
            Some(k) => {
                let level = self.levels.get(&k).unwrap();
                let price = level.get_price();
                let id = level.peek_front().unwrap();
                proof {
                    self.lemma_wf();
                    assert forall|q: Amount| #[trigger]
                        self.queues().dom().contains(q) && q != price implies self.side.better(
                        price,
                        q,
                    ) by {
                        assert(self.levels@.contains_key(rank(self.side, q)));
                        assert(key_le(k, rank(self.side, q)));
                        assert(self.queues().contains_key(q));
                        assert(self.queues().contains_key(price));
                    }
                }
                Some((price, id))
            },
        }
    }

    /// The level at `price`, or nothing where no order rests at that price.
    pub fn level_at(&self, price: &Amount) -> (r: Option<&PriceLevel>)
        requires
            self.wf(),
        ensures
            r is Some <==> self.queues().contains_key(*price),
            r matches Some(level) ==> level.queue() == self.queues()[*price] && level.total()
                == self.total_at(*price),
    {
        let k = rank_key(self.side, *price);
        self.levels.get(&k)
    }

    /// Applies a trade of `qty` to the earliest order at the best price:
    /// the level's total drops by `qty`, and if the order was `filled` it
    /// leaves the level, which leaves the side when it is left empty.
    pub fn fill_front(&mut self, qty: &Amount, filled: bool)
        requires
            old(self).wf(),
            has_best(old(self).queues().dom(), old(self).side()),
            qty.wf(),
            ({
                let p = best_price(old(self).queues().dom(), old(self).side());
                &&& qty.units() <= old(self).total_at(p).units()
                &&& filled ==> old(self).total_at(p).units() - qty.units() <= (old(self).queues()[p].len() - 1) * amount_limit()
            }),
        ensures
            final(self).wf(),
            final(self).side() == old(self).side(),
            ({
                let p = best_price(old(self).queues().dom(), old(self).side());
                let queue = old(self).queues()[p];
                &&& final(self).queues() == (if !filled {
                    old(self).queues()
                } else if queue.len() <= 1 {
                    old(self).queues().remove(p)
                } else {
                    old(self).queues().insert(p, queue.drop_first())
                })
                &&& final(self).queues().contains_key(p) ==> final(self).total_at(p).units() == old(self).total_at(p).units() - qty.units()
                &&& forall|q: Amount|
                    q != p && #[trigger] final(self).queues().contains_key(q) ==> final(self).total_at(q) == old(self).total_at(q)
            }),
    {
        let ghost side = self.side;
        let ghost before = self.queues();
        let ghost p = best_price(before.dom(), side);
        let found = first_key(&self.levels);
        proof {
            assert(is_best(before.dom(), side, p));
            assert(self.levels@.contains_key(rank(side, p)));
        }
        let k = found.unwrap();
        let ghost old_levels = self.levels@;
        proof {
            self.lemma_wf();
            let pk = unrank(side, k);
            assert(rank(side, pk) == k);
            assert(before.contains_key(pk));
            assert(is_best(before.dom(), side, pk)) by {
                assert forall|q: Amount| #[trigger] before.dom().contains(q) && q
                    != pk implies side.better(pk, q) by {
                    assert(old_levels.contains_key(rank(side, q)));
                    assert(key_le(k, rank(side, q)));
                    assert(before.contains_key(q));
                }
            }
            crate::model::lemma_best_unique(before.dom(), side, pk);
            assert(rank(side, p) == k);
        }
        let mut level = self.levels.remove(&k).unwrap();
        level.reduce(qty);
        if filled {
            level.pop_front();
        }
        if !level.is_empty() {
            self.levels.insert(k, level);
        }
        proof {
            let after = self.queues();
            let queue = before[p];
            let expected = if !filled {
                before
            } else if queue.len() <= 1 {
                before.remove(p)
            } else {
                before.insert(p, queue.drop_first())
            };
            assert forall|j: (u128, u128)| #[trigger] self.levels@.contains_key(j) implies {
                &&& self.levels@[j].wf()
                &&& rank(side, self.levels@[j].price()) == j
                &&& self.levels@[j].queue().len() > 0
            } by {
                if j != k {
                    assert(old_levels.contains_key(j));
                }
            }
            assert forall|q: Amount| after.contains_key(q) <==> expected.contains_key(q) by {
                if q != p {
                    assert(rank(side, q) != k);
                }
            }
            assert forall|q: Amount| after.contains_key(q) implies after[q] == expected[q] by {
                if q != p {
                    assert(rank(side, q) != k);
                }
            }
            assert(after =~= expected);
            assert forall|q: Amount| q != p && #[trigger] after.contains_key(q) implies self.total_at(
                q,
            ) == old(self).total_at(q) by {
                assert(rank(side, q) != k);
            }
        }
    }

    /// Brings `order` to rest: it joins the rear of the level at its price,
    /// which is opened if it is not there.
    pub fn insert_resting(&mut self, order: &Order)
        requires
            old(self).wf(),
            order.price.wf(),
            order.remaining_quantity.wf(),
        ensures
            final(self).wf(),
            final(self).side() == old(self).side(),
            final(self).queues() == rest(old(self).queues(), *order),
            final(self).total_at(order.price).units() == (if old(self).queues().contains_key(
                order.price,
            ) {
                old(self).total_at(order.price).units()
            } else {
                0
            }) + order.remaining_quantity.units(),
            forall|q: Amount|
                q != order.price && #[trigger] old(self).queues().contains_key(q) ==> final(self).total_at(q) == old(self).total_at(q),
    {
        let ghost side = self.side;
        let ghost before = self.queues();
        let ghost old_levels = self.levels@;
        let k = rank_key(self.side, order.price);
        let mut level = match self.levels.remove(&k) {
            Some(level) => level,
            None => PriceLevel::new(order.price),
        };
        proof {
            if old_levels.contains_key(k) {
                assert(rank(side, old_levels[k].price()) == rank(side, order.price));
            }
        }
        level.push(order);
        self.levels.insert(k, level);
        proof {
            let after = self.queues();
            let expected = rest(before, *order);
            assert forall|j: (u128, u128)| #[trigger] self.levels@.contains_key(j) implies {
                &&& self.levels@[j].wf()
                &&& rank(side, self.levels@[j].price()) == j
                &&& self.levels@[j].queue().len() > 0
            } by {
                if j != k {
                    assert(old_levels.contains_key(j));
                }
            }
            assert forall|q: Amount| after.contains_key(q) <==> expected.contains_key(q) by {
                if q != order.price {
                    assert(rank(side, q) != k);
                }
            }
            assert forall|q: Amount| after.contains_key(q) implies after[q] == expected[q] by {
                if q != order.price {
                    assert(rank(side, q) != k);
                } else if !before.contains_key(q) {
                    assert(after[q] =~= seq![order.id]);
                }
            }
            assert(after =~= expected);
            assert forall|q: Amount|
                q != order.price && #[trigger] before.contains_key(q) implies self.total_at(q)
                == old(self).total_at(q) by {
                assert(rank(side, q) != k);
            }
        }
    }

    /// The first `depth` levels in order of priority, each as its price and
    /// the total that it keeps.
    pub fn depth_snapshot(&self, depth: usize) -> (rows: Vec<(Amount, Total)>)
        requires
            self.wf(),
        ensures
            is_best_first(
                Seq::new(rows@.len(), |i: int| rows@[i].0),
                self.queues().dom(),
                self.side(),
                depth as int,
            ),
            forall|i: int| 0 <= i < rows@.len() ==> (#[trigger] rows@[i]).1 == self.total_at(rows@[i].0),
    {
        let mut rows: Vec<(Amount, Total)> = Vec::new();
        let ghost all = self.levels.iter().remaining();
        for entry in it: self.levels.iter()
            invariant_except_break
                rows@.len() == it.index(),
            invariant
                self.wf(),
                it.seq() == all,
                vstd::std_specs::btree::increasing_seq(
                    all.map_values(|kv: (&(u128, u128), &PriceLevel)| *kv.0),
                ),
                rows@.len() <= depth,
                rows@.len() <= it.seq().len(),
                forall|i: int|
                    0 <= i < rows@.len() ==> (#[trigger] rows@[i]) == (
                        it.seq()[i].1.price(),
                        it.seq()[i].1.total(),
                    ),
            ensures
                rows@.len() == depth || rows@.len() == it.seq().len(),
        {
            if rows.len() >= depth {
                break ;
            }
            rows.push((entry.1.get_price(), entry.1.aggregated_quantity()));
        }
        proof {
            let side = self.side;
            let keys = all.map_values(|kv: (&(u128, u128), &PriceLevel)| *kv.0);
            let listed = Seq::new(rows@.len(), |i: int| rows@[i].0);
            let prices = self.queues().dom();
            self.lemma_wf();
            self.lemma_level_count();
            lemma_increasing_keys(keys);
            assert(all.len() == self.levels@.dom().len());
            assert forall|i: int| 0 <= i < rows@.len() implies listed[i] == unrank(side, keys[i])
                && rank(side, listed[i]) == keys[i] && prices.contains(listed[i]) && (
            #[trigger] rows@[i]).1 == self.total_at(rows@[i].0) by {
                assert(self.levels@.contains_key(*all[i].0));
                assert(self.levels@[*all[i].0] == *all[i].1);
                assert(keys[i] == *all[i].0);
            }
            assert forall|i: int, j: int| 0 <= i < j < listed.len() implies side.better(
                #[trigger] listed[i],
                #[trigger] listed[j],
            ) by {
                assert(key_le(keys[i], keys[j]) && keys[i] != keys[j]);
                assert(prices.contains(listed[i]) && prices.contains(listed[j]));
                assert(self.queues().contains_key(listed[i]));
                assert(self.queues().contains_key(listed[j]));
            }
            assert forall|p: Amount, i: int|
                #[trigger] prices.contains(p) && !listed.contains(p) && 0 <= i
                    < listed.len() implies side.better(#[trigger] listed[i], p) by {
                let k = rank(side, p);
                assert(self.levels@.contains_key(k));
                assert(all.contains((&k, &self.levels@[k])));
                let j = choose|j: int| 0 <= j < all.len() && all[j] == (&k, &self.levels@[k]);
                assert(keys[j] == k);
                if j < rows@.len() {
                    assert(listed[j] == p);
                    assert(listed.contains(p));
                }
                assert(key_le(keys[i], keys[j]) && keys[i] != keys[j]);
                assert(self.queues().contains_key(listed[i]));
                assert(self.queues().contains_key(p));
            }
        }
        rows
    }
}

/// The book: the bid side and the ask side.
pub struct OrderBook {
    pub bids: BookSide,
    pub asks: BookSide,
}

impl OrderBook {
    /// Both sides are well-formed and know which side they are.
    pub open spec fn wf(&self) -> bool {
        &&& self.bids.wf()
        &&& self.asks.wf()
        &&& self.bids.side() == Side::Bid
        &&& self.asks.side() == Side::Ask
    }

    /// The given side of the book.
    pub open spec fn side(&self, side: Side) -> BookSide {
        match side {
            Side::Bid => self.bids,
            Side::Ask => self.asks,
        }
    }

    /// An empty book.
    pub fn new() -> (r: OrderBook)
        ensures
            r.wf(),
            r.bids.queues() == Map::<Amount, Seq<u64>>::empty(),
            r.asks.queues() == Map::<Amount, Seq<u64>>::empty(),
    {
        OrderBook { bids: BookSide::new(Side::Bid), asks: BookSide::new(Side::Ask) }
    }

    /// The highest bid price, or nothing where no bid rests.
    pub fn best_bid(&self) -> (r: Option<Amount>)
        requires
            self.wf(),
        ensures
            match r {
                None => self.bids.queues().dom() == Set::<Amount>::empty(),
                Some(price) => is_best(self.bids.queues().dom(), Side::Bid, price),
            },
    {
        match self.bids.best_front() {
            None => None,
            Some(front) => Some(front.0),
        }
    }

    /// The lowest ask price, or nothing where no ask rests.
    pub fn best_ask(&self) -> (r: Option<Amount>)
        requires
            self.wf(),
        ensures
            match r {
                None => self.asks.queues().dom() == Set::<Amount>::empty(),
                Some(price) => is_best(self.asks.queues().dom(), Side::Ask, price),
            },
    {
        match self.asks.best_front() {
            None => None,
            Some(front) => Some(front.0),
        }
    }

    /// Brings `order` to rest on its side, and leaves the other side alone.
    pub fn insert_resting(&mut self, order: &Order)
        requires
            old(self).wf(),
            order.price.wf(),
            order.remaining_quantity.wf(),
        ensures
            final(self).wf(),
            final(self).side(order.side.opposite()) == old(self).side(order.side.opposite()),
            final(self).side(order.side).queues() == rest(old(self).side(order.side).queues(), *order),
            final(self).side(order.side).total_at(order.price).units() == (if old(self).side(
                order.side,
            ).queues().contains_key(order.price) {
                old(self).side(order.side).total_at(order.price).units()
            } else {
                0
            }) + order.remaining_quantity.units(),
            forall|q: Amount|
                q != order.price && #[trigger] old(self).side(order.side).queues().contains_key(q)
                    ==> final(self).side(order.side).total_at(q) == old(self).side(
                    order.side,
                ).total_at(q),
    {
        match order.side {
            Side::Bid => self.bids.insert_resting(order),
            Side::Ask => self.asks.insert_resting(order),
        }
    }

    /// The first `depth` levels of each side, best first: the bids, then
    /// the asks, each level as its price and the total that it keeps.
    pub fn depth_snapshot(&self, depth: usize) -> (r: (Vec<(Amount, Total)>, Vec<(Amount, Total)>))
        requires
            self.wf(),
        ensures
            is_best_first(
                Seq::new(r.0@.len(), |i: int| r.0@[i].0),
                self.bids.queues().dom(),
                Side::Bid,
                depth as int,
            ),
            is_best_first(
                Seq::new(r.1@.len(), |i: int| r.1@[i].0),
                self.asks.queues().dom(),
                Side::Ask,
                depth as int,
            ),
            forall|i: int|
                0 <= i < r.0@.len() ==> (#[trigger] r.0@[i]).1 == self.bids.total_at(r.0@[i].0),
            forall|i: int|
                0 <= i < r.1@.len() ==> (#[trigger] r.1@[i]).1 == self.asks.total_at(r.1@[i].0),
    {
        (self.bids.depth_snapshot(depth), self.asks.depth_snapshot(depth))
    }
}

} // verus!
