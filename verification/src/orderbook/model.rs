//! The mathematical model that the book's contracts are written in.
//!
//! A side of the book is viewed as a map from price to the queue of orders
//! resting at that price (a `Seq`, oldest first). Matching an incoming order
//! against one side is the recursive `sweep`: take the best price level, trade
//! with the order at the front of its queue for as much as both can, and go on
//! until the incoming order is filled, the side is empty, or the best price no
//! longer crosses the incoming order's limit.

use super::laws::lemma_best_price_exists;
use super::types::{Order, OrderBook, OrderId, OrderRequest, Price, Side, Trade};
use vstd::prelude::*;

verus! {

/// One side of the book: each price mapped to the queue of orders resting
/// there, oldest first.
pub type Levels = Map<Price, Seq<Order>>;

/// A side of the book as a map from price to the queue at that price.
pub open spec fn levels_view(m: Map<Price, Vec<Order>>) -> Levels {
    m.map_values(|v: Vec<Order>| v@)
}

/// Every price level holds at least one order, every order rests at the
/// price of its level, and no resting order has nothing left to trade.
pub open spec fn wf_levels(levels: Levels) -> bool {
    forall|p: Price| #[trigger] levels.contains_key(p) ==> {
        &&& levels[p].len() > 0
        &&& forall|i: int|
            0 <= i < levels[p].len() ==> (#[trigger] levels[p][i]).price == p
                && levels[p][i].quantity > 0
    }
}

/// The other side of the book.
pub open spec fn opposite(side: Side) -> Side {
    match side {
        Side::Bid => Side::Ask,
        Side::Ask => Side::Bid,
    }
}

/// `p` is the best price of a side: the highest bid or the lowest ask.
pub open spec fn is_best_price(levels: Levels, side: Side, p: Price) -> bool {
    &&& levels.contains_key(p)
    &&& forall|q: Price| #[trigger]
        levels.contains_key(q) ==> match side {
            Side::Bid => q <= p,
            Side::Ask => p <= q,
        }
}

/// The best price of a non-empty side.
pub open spec fn best_price(levels: Levels, side: Side) -> Price {
    choose|p: Price| is_best_price(levels, side, p)
}

/// An incoming order on `taker_side` with limit `limit` trades with orders
/// resting at `price`: a buyer pays at most its limit, a seller gets at least its limit.
pub open spec fn crosses(taker_side: Side, price: Price, limit: Price) -> bool {
    match taker_side {
        Side::Bid => price <= limit,
        Side::Ask => price >= limit,
    }
}

/// What a trade records, apart from its time stamp.
pub struct TradeView {
    pub taker_order_id: OrderId,
    pub maker_order_id: OrderId,
    pub maker_arrival_seq: u64,
    pub price: Price,
    pub quantity: u64,
}

impl View for Trade {
    type V = TradeView;

    open spec fn view(&self) -> TradeView {
        TradeView {
            taker_order_id: self.taker_order_id,
            maker_order_id: self.maker_order_id,
            maker_arrival_seq: self.maker_arrival_seq,
            price: self.price,
            quantity: self.quantity,
        }
    }
}

/// The trades of a list, each seen without its time stamp.
pub open spec fn trade_views(trades: Seq<Trade>) -> Seq<TradeView> {
    trades.map_values(|t: Trade| t@)
}

/// The outcome of matching an incoming order against one side of the book.
pub struct Sweep {
    /// What is left of that side.
    pub resting: Levels,
    /// The trades, in the order they happen.
    pub fills: Seq<TradeView>,
    /// The quantity of the incoming order that found no counterpart.
    pub unfilled: nat,
}

/// The quantity that a resting order trades with an incoming order that still
/// wants `qty`: as much as both have.
pub open spec fn traded_quantity(maker: Order, qty: nat) -> nat {
    if maker.quantity < qty {
        maker.quantity as nat
    } else {
        qty
    }
}

/// A queue after its front order traded `q`: the front order leaves the queue
/// when nothing is left of it, and otherwise keeps its place with less.
pub open spec fn after_front_trade(level: Seq<Order>, q: nat) -> Seq<Order> {
    let maker = level[0];
    if maker.quantity == q {
        level.drop_first()
    } else {
        level.update(0, Order { quantity: (maker.quantity - q) as u64, ..maker })
    }
}

/// `levels` with the queue at `p` replaced by `level`; an empty queue takes
/// the price level away.
pub open spec fn set_level(levels: Levels, p: Price, level: Seq<Order>) -> Levels {
    if level.len() == 0 {
        levels.remove(p)
    } else {
        levels.insert(p, level)
    }
}

/// Matches an incoming order with id `taker`, limit `limit` and quantity `qty`
/// from `taker_side` against `levels`, the resting orders of the other side:
/// best price first, and within a price, oldest order first.
pub open spec fn sweep(
    levels: Levels,
    taker_side: Side,
    taker: OrderId,
    limit: Price,
    qty: nat,
) -> Sweep
    decreases qty,
{
    let done = Sweep { resting: levels, fills: Seq::empty(), unfilled: qty };
    if qty == 0 || levels.dom().is_empty() {
        done
    } else {
        let p = best_price(levels, opposite(taker_side));
        let maker = levels[p][0];
        let q = traded_quantity(maker, qty);
        // `q == 0` cannot happen on a well-formed side; the test keeps the definition total.
        if !crosses(taker_side, p, limit) || q == 0 {
            done
        } else {
            let fill = TradeView {
                taker_order_id: taker,
                maker_order_id: maker.id,
                maker_arrival_seq: maker.arrival_seq,
                price: p,
                quantity: q as u64,
            };
            let next = set_level(levels, p, after_front_trade(levels[p], q));
            let s = sweep(next, taker_side, taker, limit, (qty - q) as nat);
            Sweep { resting: s.resting, fills: seq![fill] + s.fills, unfilled: s.unfilled }
        }
    }
}

/// The orders resting on `side` in the order an incoming order meets them:
/// the queue at the best price first, oldest order first, then the rest of the
/// side in the same way.
pub open spec fn priority_order(levels: Levels, side: Side) -> Seq<Order>
    decreases levels.dom().len(),
    when levels.dom().finite()
{
    if levels.dom().len() == 0 {
        Seq::empty()
    } else {
        let p = best_price(levels, side);
        proof {
            lemma_best_price_exists(levels, side);
        }
        levels[p] + priority_order(levels.remove(p), side)
    }
}

/// Within every queue, orders stand in strictly increasing order of arrival.
pub open spec fn queues_in_arrival_order(levels: Levels) -> bool {
    forall|p: Price, i: int, j: int|
        #![trigger levels[p][i], levels[p][j]]
        levels.contains_key(p) && 0 <= i < j < levels[p].len() ==> levels[p][i].arrival_seq
            < levels[p][j].arrival_seq
}

/// Every resting order got its arrival number below `next_seq` and its id
/// below `next_id`.
pub open spec fn issued_before(levels: Levels, next_seq: u64, next_id: u64) -> bool {
    forall|p: Price, i: int|
        #![trigger levels[p][i]]
        levels.contains_key(p) && 0 <= i < levels[p].len() ==> levels[p][i].arrival_seq < next_seq
            && levels[p][i].id.0 < next_id
}

/// Every bid price is below every ask price.
pub open spec fn uncrossed(bids: Levels, asks: Levels) -> bool {
    forall|b: Price, a: Price|
        #[trigger] bids.contains_key(b) && #[trigger] asks.contains_key(a) ==> b < a
}

/// No two orders resting in `levels` share an id.
pub open spec fn ids_distinct_within(levels: Levels) -> bool {
    forall|p: Price, i: int, q: Price, j: int|
        #![trigger levels[p][i], levels[q][j]]
        levels.contains_key(p) && 0 <= i < levels[p].len() && levels.contains_key(q) && 0 <= j
            < levels[q].len() && (p != q || i != j) ==> levels[p][i].id != levels[q][j].id
}

/// No order resting in `a` shares its id with an order resting in `b`.
pub open spec fn ids_distinct_across(a: Levels, b: Levels) -> bool {
    forall|p: Price, i: int, q: Price, j: int|
        #![trigger a[p][i], b[q][j]]
        a.contains_key(p) && 0 <= i < a[p].len() && b.contains_key(q) && 0 <= j < b[q].len()
            ==> a[p][i].id != b[q][j].id
}

/// No two orders resting on the book, on either side, share an id.
pub open spec fn ids_distinct(bids: Levels, asks: Levels) -> bool {
    &&& ids_distinct_within(bids)
    &&& ids_distinct_within(asks)
    &&& ids_distinct_across(bids, asks)
}

/// The quantity resting in a queue.
pub open spec fn queue_volume(level: Seq<Order>) -> nat
    decreases level.len(),
{
    if level.len() == 0 {
        0
    } else {
        level[0].quantity as nat + queue_volume(level.drop_first())
    }
}

/// The quantity resting on a side of the book.
pub open spec fn side_volume(levels: Levels) -> nat
    decreases levels.dom().len(),
    when levels.dom().finite()
{
    if levels.dom().len() == 0 {
        0
    } else {
        let p = levels.dom().choose();
        queue_volume(levels[p]) + side_volume(levels.remove(p))
    }
}

/// The quantity traded over a list of trades.
pub open spec fn total_filled(fills: Seq<TradeView>) -> nat
    decreases fills.len(),
{
    if fills.len() == 0 {
        0
    } else {
        fills[0].quantity as nat + total_filled(fills.drop_first())
    }
}

/// `levels` with `order` queued at the back of the level at its price.
pub open spec fn rest_order(levels: Levels, order: Order) -> Levels {
    if levels.contains_key(order.price) {
        levels.insert(order.price, levels[order.price].push(order))
    } else {
        levels.insert(order.price, seq![order])
    }
}

/// One side of the book and the other after an incoming order is matched.
pub struct Matched {
    /// The incoming order's own side, with what is left of it resting there.
    pub own: Levels,
    /// The side it was matched against.
    pub other: Levels,
    /// The trades, in the order they happen.
    pub fills: Seq<TradeView>,
}

/// Matches `taker`, an incoming order from `side`, against `other`, and rests
/// what is left of it at its limit price at the back of its queue in `own`.
pub open spec fn match_order(
    own: Levels,
    other: Levels,
    taker: Order,
    side: Side,
) -> Matched {
    let s = sweep(other, side, taker.id, taker.price, taker.quantity as nat);
    Matched {
        own: if s.unfilled > 0 {
            rest_order(own, Order { quantity: s.unfilled as u64, ..taker })
        } else {
            own
        },
        other: s.resting,
        fills: s.fills,
    }
}

/// Both sides of the book and the trades made, after an incoming order.
pub struct Outcome {
    pub bids: Levels,
    pub asks: Levels,
    pub fills: Seq<TradeView>,
}

/// The book's sides and the trades after `taker`, an incoming order from
/// `side`, is matched and what is left of it rests.
pub open spec fn outcome(
    bids: Levels,
    asks: Levels,
    taker: Order,
    side: Side,
) -> Outcome {
    match side {
        Side::Bid => {
            let m = match_order(bids, asks, taker, side);
            Outcome { bids: m.own, asks: m.other, fills: m.fills }
        },
        Side::Ask => {
            let m = match_order(asks, bids, taker, side);
            Outcome { bids: m.other, asks: m.own, fills: m.fills }
        },
    }
}

/// Some order resting in `levels` has id `id`.
pub open spec fn holds_order(levels: Levels, id: OrderId) -> bool {
    exists|p: Price, i: int|
        #![trigger levels[p][i]]
        levels.contains_key(p) && 0 <= i < levels[p].len() && levels[p][i].id == id
}

/// `levels` without the order at position `i` of the level at price `p`;
/// a level left empty disappears.
pub open spec fn remove_order_at(levels: Levels, p: Price, i: int) -> Levels {
    let rest = levels[p].remove(i);
    if rest.len() == 0 {
        levels.remove(p)
    } else {
        levels.insert(p, rest)
    }
}

/// `after` is `before` with `order` taken out of the queue it rests in.
pub open spec fn removed_from(before: Levels, after: Levels, order: Order) -> bool {
    exists|p: Price, i: int|
        #![trigger before[p][i]]
        before.contains_key(p) && 0 <= i < before[p].len() && before[p][i] == order
            && after == remove_order_at(before, p, i)
}

impl OrderBook {
    /// The bid side as a map from price to queue.
    pub open spec fn bid_levels(&self) -> Levels {
        levels_view(self.bids@)
    }

    /// The ask side as a map from price to queue.
    pub open spec fn ask_levels(&self) -> Levels {
        levels_view(self.asks@)
    }

    /// One side of the book as a map from price to queue.
    pub open spec fn levels_on(&self, side: Side) -> Levels {
        match side {
            Side::Bid => self.bid_levels(),
            Side::Ask => self.ask_levels(),
        }
    }

    /// Both sides of the book are well formed.
    pub open spec fn wf(&self) -> bool {
        wf_levels(self.bid_levels()) && wf_levels(self.ask_levels())
    }

    /// The order that the next call of `make_order` hands out.
    pub open spec fn next_order(&self, price: Price, quantity: u64) -> Order {
        Order {
            id: OrderId(self.order_id_counter),
            price,
            quantity,
            arrival_seq: self.next_seq,
        }
    }

    /// The book after `request` is given the next order id and arrival number,
    /// matched, and what is left of it rested.
    pub open spec fn after_matching(&self, request: OrderRequest) -> Outcome {
        outcome(
            self.bid_levels(),
            self.ask_levels(),
            self.next_order(request.price, request.quantity),
            request.side,
        )
    }

    /// Every resting order was numbered by this book, and every queue is in
    /// arrival order.
    pub open spec fn issued_in_order(&self) -> bool {
        &&& queues_in_arrival_order(self.bid_levels())
        &&& queues_in_arrival_order(self.ask_levels())
        &&& issued_before(self.bid_levels(), self.next_seq, self.order_id_counter)
        &&& issued_before(self.ask_levels(), self.next_seq, self.order_id_counter)
    }

    /// The book is well formed, every resting order was numbered by it, every
    /// queue is in arrival order, and no two resting orders share an id.
    pub open spec fn consistent(&self) -> bool {
        &&& self.wf()
        &&& self.issued_in_order()
        &&& ids_distinct(self.bid_levels(), self.ask_levels())
    }

    /// `after` is this book once an order for `quantity` at `price` has been
    /// numbered and rested on `side` without matching; a zero quantity changes
    /// nothing.
    pub open spec fn adds_into(
        &self,
        price: Price,
        quantity: u64,
        side: Side,
        after: OrderBook,
    ) -> bool {
        if quantity == 0 {
            after == *self
        } else {
            &&& after.order_id_counter == self.order_id_counter + 1
            &&& after.next_seq == self.next_seq + 1
            &&& after.levels_on(side) == rest_order(
                self.levels_on(side),
                self.next_order(price, quantity),
            )
            &&& after.levels_on(opposite(side)) == self.levels_on(opposite(side))
        }
    }

    /// `after` is this book once `request` has been numbered, matched and what
    /// is left of it rested, with the trades `fills`.
    pub open spec fn matches_into(
        &self,
        request: OrderRequest,
        after: OrderBook,
        fills: Seq<TradeView>,
    ) -> bool {
        &&& after.order_id_counter == self.order_id_counter + 1
        &&& after.next_seq == self.next_seq + 1
        &&& fills == self.after_matching(request).fills
        &&& after.bid_levels() == self.after_matching(request).bids
        &&& after.ask_levels() == self.after_matching(request).asks
    }

    /// `after` is this book once the order with id `id` has been taken off it,
    /// `cancelled` being that order, or `None` when no resting order has that
    /// id. The bids are searched first.
    pub open spec fn cancels_into(
        &self,
        id: OrderId,
        after: OrderBook,
        cancelled: Option<Order>,
    ) -> bool {
        &&& after.order_id_counter == self.order_id_counter
        &&& after.next_seq == self.next_seq
        &&& match cancelled {
            None => {
                &&& !holds_order(self.bid_levels(), id)
                &&& !holds_order(self.ask_levels(), id)
                &&& after.bid_levels() == self.bid_levels()
                &&& after.ask_levels() == self.ask_levels()
            },
            Some(order) => {
                &&& order.id == id
                &&& if holds_order(self.bid_levels(), id) {
                    &&& removed_from(self.bid_levels(), after.bid_levels(), order)
                    &&& after.ask_levels() == self.ask_levels()
                } else {
                    &&& removed_from(self.ask_levels(), after.ask_levels(), order)
                    &&& after.bid_levels() == self.bid_levels()
                }
            },
        }
    }

    /// The book has room for one more order id and arrival number.
    pub open spec fn can_make_order(&self) -> bool {
        self.order_id_counter < u64::MAX && self.next_seq < u64::MAX
    }
}

} // verus!
