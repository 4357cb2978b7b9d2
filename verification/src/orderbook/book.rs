//! The matching engine: creating orders, resting them, and matching incoming
//! orders against the other side of the book.

use super::model::{
    Levels, best_price, holds_order, is_best_price, levels_view, match_order, opposite,
    priority_order, remove_order_at, removed_from, rest_order, sweep, trade_views, uncrossed,
    wf_levels, TradeView,
};
use super::laws::{
    lemma_adding_keeps_book_consistent, lemma_cancel_keeps_book_consistent,
    lemma_matching_follows_priority, lemma_matching_keeps_book_consistent,
    lemma_matching_keeps_book_uncrossed,
};
use super::types::{Order, OrderBook, OrderId, OrderRequest, Price, Quantity, Side, Trade, Trades};
use std::collections::BTreeMap;
use std::time::SystemTime;
use vstd::prelude::*;

verus! {

/// Calls `BTreeMap::first_key_value`. Claimed: the result is `None` exactly when
/// the map is empty, and otherwise the smallest key of the map, as the standard
/// library documents ("the key in this pair is the minimum key in the map").
#[verifier::external_body]
fn lowest_price(levels: &BTreeMap<Price, Vec<Order>>) -> (best: Option<Price>)
    ensures
        best is None <==> levels@.dom().is_empty(),
        best matches Some(p) ==> levels@.contains_key(p) && forall|q: Price|
            #[trigger] levels@.contains_key(q) ==> p <= q,
{
    match levels.first_key_value() {
        Some((p, _)) => Some(*p),
        None => None,
    }
}

/// Calls `BTreeMap::last_key_value`. Claimed: the result is `None` exactly when
/// the map is empty, and otherwise the largest key of the map, as the standard
/// library documents ("the key in this pair is the maximum key in the map").
#[verifier::external_body]
fn highest_price(levels: &BTreeMap<Price, Vec<Order>>) -> (best: Option<Price>)
    ensures
        best is None <==> levels@.dom().is_empty(),
        best matches Some(p) ==> levels@.contains_key(p) && forall|q: Price|
            #[trigger] levels@.contains_key(q) ==> q <= p,
{
    match levels.last_key_value() {
        Some((p, _)) => Some(*p),
        None => None,
    }
}

/// Calls `SystemTime::now`. Nothing is claimed of the time it returns.
#[verifier::external_body]
fn current_time() -> SystemTime {
    SystemTime::now()
}

/// Two best prices of the same side are the same price.
proof fn lemma_best_price_is_unique(levels: Levels, side: Side, p: Price)
    requires
        is_best_price(levels, side, p),
    ensures
        best_price(levels, side) == p,
{
    // `p` witnesses that a best price exists, so the chosen one is best too,
    // and two best prices of one side bound each other.
    assert(is_best_price(levels, side, best_price(levels, side)));
}

impl OrderBook {
    /// An empty book whose first order gets id 1 and arrival number 0.
    pub fn new() -> (book: OrderBook)
        ensures
            book.wf(),
            book.next_seq == 0,
            book.order_id_counter == 1,
            book.bid_levels() == Levels::empty(),
            book.ask_levels() == Levels::empty(),
            book.consistent(),
            uncrossed(book.bid_levels(), book.ask_levels()),
    {
        let book = OrderBook {
            next_seq: 0,
            order_id_counter: 1,
            bids: BTreeMap::new(),
            asks: BTreeMap::new(),
        };
        book
    }

    /// Hands out the next order id.
    pub fn next_order_id(&mut self) -> (id: OrderId)
        requires
            old(self).order_id_counter < u64::MAX,
        ensures
            id == OrderId(old(self).order_id_counter),
            final(self).order_id_counter == old(self).order_id_counter + 1,
            final(self).next_seq == old(self).next_seq,
            final(self).bids == old(self).bids,
            final(self).asks == old(self).asks,
    {
        let id = OrderId(self.order_id_counter);
        self.order_id_counter += 1;
        id
    }

    /// A request to trade `quantity` on `side` at limit `price`.
    pub fn make_order_request(price: Price, quantity: Quantity, side: Side) -> (request:
        OrderRequest)
        ensures
            request == (OrderRequest { side, price, quantity }),
    {
        return OrderRequest { price, quantity, side };
    }

    /// A new order with the next id and the next arrival number.
    pub fn make_order(&mut self, price: Price, quantity: Quantity) -> (order: Order)
        requires
            old(self).can_make_order(),
        ensures
            order == old(self).next_order(price, quantity),
            final(self).order_id_counter == old(self).order_id_counter + 1,
            final(self).next_seq == old(self).next_seq + 1,
            final(self).bids == old(self).bids,
            final(self).asks == old(self).asks,
    {
        let id = self.next_order_id();
        let order = Order { id, price, quantity, arrival_seq: self.next_seq };
        self.next_seq += 1;
        order
    }

    /// Rests `order` at the back of the queue at its price on `side`, without
    /// matching it; an order with nothing to trade is dropped.
    pub fn add_order_internal(&mut self, order: Order, side: Side)
        ensures
            final(self).order_id_counter == old(self).order_id_counter,
            final(self).next_seq == old(self).next_seq,
            final(self).levels_on(opposite(side)) == old(self).levels_on(opposite(side)),
            final(self).levels_on(side) == if order.quantity == 0 {
                old(self).levels_on(side)
            } else {
                rest_order(old(self).levels_on(side), order)
            },
            old(self).wf() ==> final(self).wf(),
    {
        if order.quantity == 0 {
            return;
        }
        match side {
            Side::Bid => rest_in(&mut self.bids, order),
            Side::Ask => rest_in(&mut self.asks, order),
        }
    }

    /// Creates an order for `quantity` at `price` and rests it on `side` without
    /// matching it. A zero quantity leaves the book, counters included, as it was.
    pub fn add_order_external(&mut self, price: Price, quantity: Quantity, side: Side)
        requires
            quantity > 0 ==> old(self).can_make_order(),
        ensures
            old(self).adds_into(price, quantity, side, *final(self)),
            old(self).wf() ==> final(self).wf(),
            old(self).consistent() ==> final(self).consistent(),
    {
        if quantity == 0 {
            return;
        }
        let ghost before = *self;
        let order = self.make_order(price, quantity);
        self.add_order_internal(order, side);
        proof {
            if before.consistent() {
                lemma_adding_keeps_book_consistent(&before, price, quantity, side, &*self);
            }
        }
    }

    /// Matches an incoming sell order against the bids, best (highest) price
    /// first and oldest first within a price; what is left of it rests on the asks.
    fn matching_ask_order(&mut self, incoming: Order) -> (trades: Trades)
        requires
            old(self).wf(),
        ensures
            final(self).wf(),
            final(self).order_id_counter == old(self).order_id_counter,
            final(self).next_seq == old(self).next_seq,
            ({
                let m = match_order(
                    old(self).ask_levels(),
                    old(self).bid_levels(),
                    incoming,
                    Side::Ask,
                );
                &&& trade_views(trades@) == m.fills
                &&& final(self).ask_levels() == m.own
                &&& final(self).bid_levels() == m.other
            }),
    {
        let mut incoming = incoming;
        let trades = sweep_levels(&mut self.bids, &mut incoming, Side::Ask);
        if incoming.quantity > 0 {
            self.add_order_internal(incoming, Side::Ask);
        }
        trades
    }

    /// Matches an incoming buy order against the asks, best (lowest) price
    /// first and oldest first within a price; what is left of it rests on the bids.
    fn matching_bid_order(&mut self, incoming: Order) -> (trades: Trades)
        requires
            old(self).wf(),
        ensures
            final(self).wf(),
            final(self).order_id_counter == old(self).order_id_counter,
            final(self).next_seq == old(self).next_seq,
            ({
                let m = match_order(
                    old(self).bid_levels(),
                    old(self).ask_levels(),
                    incoming,
                    Side::Bid,
                );
                &&& trade_views(trades@) == m.fills
                &&& final(self).bid_levels() == m.own
                &&& final(self).ask_levels() == m.other
            }),
    {
        let mut incoming = incoming;
        let trades = sweep_levels(&mut self.asks, &mut incoming, Side::Bid);
        if incoming.quantity > 0 {
            self.add_order_internal(incoming, Side::Bid);
        }
        trades
    }

    /// Gives the request the next order id and arrival number, matches it
    /// against the other side of the book, and rests what is left of it on its
    /// own side. Returns the trades in the order they happened.
    pub fn matching_order(&mut self, incoming: OrderRequest) -> (trades: Trades)
        requires
            old(self).wf(),
            old(self).can_make_order(),
        ensures
            final(self).wf(),
            old(self).matches_into(incoming, *final(self), trade_views(trades@)),
            old(self).consistent() ==> final(self).consistent(),
            uncrossed(old(self).bid_levels(), old(self).ask_levels()) ==> uncrossed(
                final(self).bid_levels(),
                final(self).ask_levels(),
            ),
            ({
                let side = opposite(incoming.side);
                let queue = priority_order(old(self).levels_on(side), side);
                &&& trades@.len() <= queue.len()
                &&& forall|i: int| 0 <= i < trades@.len() ==> {
                    &&& (#[trigger] trades@[i]).maker_order_id == queue[i].id
                    &&& trades@[i].maker_arrival_seq == queue[i].arrival_seq
                    &&& trades@[i].price == queue[i].price
                    &&& trades@[i].quantity <= queue[i].quantity
                    &&& i + 1 < trades@.len() ==> trades@[i].quantity == queue[i].quantity
                }
            }),
    {
        let ghost before = *self;
        let order = self.make_order(incoming.price, incoming.quantity);
        let trades = match incoming.side {
            Side::Ask => self.matching_ask_order(order),
            Side::Bid => self.matching_bid_order(order),
        };
        proof {
            lemma_matching_follows_priority(&before, incoming);
            let fills = before.after_matching(incoming).fills;
            assert(fills == trade_views(trades@));
            let side = opposite(incoming.side);
            let queue = priority_order(before.levels_on(side), side);
            assert(trades@.len() == fills.len());
            assert forall|i: int| 0 <= i < trades@.len() implies {
                &&& (#[trigger] trades@[i]).maker_order_id == queue[i].id
                &&& trades@[i].maker_arrival_seq == queue[i].arrival_seq
                &&& trades@[i].price == queue[i].price
                &&& trades@[i].quantity <= queue[i].quantity
                &&& i + 1 < trades@.len() ==> trades@[i].quantity == queue[i].quantity
            } by {
                assert(fills[i] == trades@[i]@);
            }
            lemma_matching_keeps_book_uncrossed(&before, incoming);
            if before.consistent() {
                let fills = trade_views(trades@);
                lemma_matching_keeps_book_consistent(&before, incoming, &*self, fills);
            }
        }
        trades
    }

    /// Takes the order with id `id` off the book and returns it; `None` when no
    /// resting order has that id. The bids are searched before the asks.
    pub fn cancel_order(&mut self, id: OrderId) -> (cancelled: Option<Order>)
        ensures
            old(self).wf() ==> final(self).wf(),
            old(self).cancels_into(id, *final(self), cancelled),
            old(self).consistent() ==> final(self).consistent(),
            cancelled is None <==> !holds_order(old(self).bid_levels(), id) && !holds_order(
                old(self).ask_levels(),
                id,
            ),
            cancelled matches Some(order) ==> order.id == id,
    {
        let ghost before = *self;
        let from_bids = cancel_in(&mut self.bids, id);
        let cancelled = if from_bids.is_some() {
            from_bids
        } else {
            cancel_in(&mut self.asks, id)
        };
        proof {
            if before.consistent() {
                lemma_cancel_keeps_book_consistent(&before, id, &*self, cancelled);
            }
        }
        cancelled
    }

    /// A trade between the incoming order `taker_order_id` and the resting
    /// order `maker_order_id`.
    pub fn make_trade(
        taker_order_id: OrderId,
        maker_order_id: OrderId,
        maker_arrival_seq: u64,
        price: Price,
        quantity: Quantity,
        timestamp: SystemTime,
    ) -> (trade: Trade)
        ensures
            trade.taker_order_id == taker_order_id,
            trade.maker_order_id == maker_order_id,
            trade.maker_arrival_seq == maker_arrival_seq,
            trade.price == price,
            trade.quantity == quantity,
            trade.timestamp == timestamp,
    {
        let trade = Trade {
            taker_order_id,
            maker_order_id,
            maker_arrival_seq,
            price,
            quantity,
            timestamp,
        };
        trade
    }
}

/// Matches `taker`, an incoming order from `taker_side`, against `levels`, the
/// resting orders of the other side, as `sweep` describes; on return `taker`
/// holds the quantity that found no counterpart.
fn sweep_levels(
    levels: &mut BTreeMap<Price, Vec<Order>>,
    taker: &mut Order,
    taker_side: Side,
) -> (trades: Trades)
    requires
        wf_levels(levels_view(old(levels)@)),
    ensures
        wf_levels(levels_view(final(levels)@)),
        final(taker).id == old(taker).id,
        final(taker).price == old(taker).price,
        final(taker).arrival_seq == old(taker).arrival_seq,
        ({
            let s = sweep(
                levels_view(old(levels)@),
                taker_side,
                old(taker).id,
                old(taker).price,
                old(taker).quantity as nat,
            );
            &&& levels_view(final(levels)@) == s.resting
            &&& trade_views(trades@) == s.fills
            &&& final(taker).quantity == s.unfilled
        }),
{
    let mut trades: Trades = Vec::new();
    let ghost goal = sweep(
        levels_view(levels@),
        taker_side,
        taker.id,
        taker.price,
        taker.quantity as nat,
    );
    let ghost id0 = taker.id;
    let ghost price0 = taker.price;
    let ghost seq0 = taker.arrival_seq;
    while taker.quantity > 0
        invariant
            wf_levels(levels_view(levels@)),
            taker.id == id0,
            taker.price == price0,
            taker.arrival_seq == seq0,
            ({
                let s = sweep(
                    levels_view(levels@),
                    taker_side,
                    taker.id,
                    taker.price,
                    taker.quantity as nat,
                );
                &&& s.resting == goal.resting
                &&& trade_views(trades@) + s.fills == goal.fills
                &&& s.unfilled == goal.unfilled
            }),
        ensures
            wf_levels(levels_view(levels@)),
            taker.id == id0,
            taker.price == price0,
            taker.arrival_seq == seq0,
            levels_view(levels@) == goal.resting,
            trade_views(trades@) == goal.fills,
            taker.quantity == goal.unfilled,
        decreases taker.quantity,
    {
        let ghost view = levels_view(levels@);
        let best = match taker_side {
            Side::Bid => lowest_price(levels),
            Side::Ask => highest_price(levels),
        };
        if best.is_none() {
            break;
        }
        let price = best.unwrap();
        proof {
            assert(is_best_price(view, opposite(taker_side), price));
            lemma_best_price_is_unique(view, opposite(taker_side), price);
        }
        let crossing = match taker_side {
            Side::Bid => price <= taker.price,
            Side::Ask => price >= taker.price,
        };
        if !crossing {
            break;
        }
        let mut level = levels.remove(&price).unwrap();
        let ghost old_level = level@;
        let mut maker = level.remove(0);
        let traded = if maker.quantity < taker.quantity { maker.quantity } else { taker.quantity };
        let trade = OrderBook::make_trade(
            taker.id,
            maker.id,
            maker.arrival_seq,
            price,
            traded,
            current_time(),
        );
        trades.push(trade);
        maker.quantity = maker.quantity - traded;
        taker.quantity = taker.quantity - traded;
        if maker.quantity > 0 {
            level.insert(0, maker);
        }
        let ghost rest_of_level = level@;
        if level.len() > 0 {
            levels.insert(price, level);
        }
        proof {
            let maker0 = old_level[0];
            if maker0.quantity != traded {
                let left = Order { quantity: (maker0.quantity - traded) as u64, ..maker0 };
                assert(rest_of_level =~= old_level.update(0, left));
            }
            if rest_of_level.len() == 0 {
                assert(levels_view(levels@) =~= view.remove(price));
            } else {
                assert(levels_view(levels@) =~= view.insert(price, rest_of_level));
            }
        }
    }
    trades
}

/// No order of the level at price `p` has id `id`.
spec fn level_lacks(view: Levels, p: Price, id: OrderId) -> bool {
    forall|i: int| 0 <= i < view[p].len() ==> (#[trigger] view[p][i]).id != id
}

/// Finds where an order with id `id` rests: its price and its position in the
/// queue at that price.
fn find_order(levels: &BTreeMap<Price, Vec<Order>>, id: OrderId) -> (found: Option<(Price, usize)>)
    ensures
        match found {
            Some((p, i)) => {
                &&& levels_view(levels@).contains_key(p)
                &&& i < levels_view(levels@)[p].len()
                &&& levels_view(levels@)[p][i as int].id == id
            },
            None => !holds_order(levels_view(levels@), id),
        },
{
    let ghost view = levels_view(levels@);
    for k in it: levels.keys()
        invariant
            view == levels_view(levels@),
            forall|j: int| 0 <= j < it.index() ==> level_lacks(view, *#[trigger] it.seq()[j], id),
    {
        let level = levels.get(k).unwrap();
        let mut i: usize = 0;
        while i < level.len()
            invariant
                i <= level.len(),
                view == levels_view(levels@),
                view.contains_key(*k),
                level@ == view[*k],
                forall|j: int| 0 <= j < i ==> (#[trigger] view[*k][j]).id != id,
            decreases level.len() - i,
        {
            if level[i].id == id {
                return Some((*k, i));
            }
            i += 1;
        }
    }
    assert forall|p: Price, i: int| view.contains_key(p) && 0 <= i < view[p].len() implies (
        #[trigger] view[p][i]).id != id by {
        assert(level_lacks(view, p, id));
    }
    None
}

/// Takes the order with id `id` out of `levels`, if one rests there.
fn cancel_in(levels: &mut BTreeMap<Price, Vec<Order>>, id: OrderId) -> (cancelled: Option<Order>)
    ensures
        wf_levels(levels_view(old(levels)@)) ==> wf_levels(levels_view(final(levels)@)),
        match cancelled {
            Some(order) => order.id == id && removed_from(
                levels_view(old(levels)@),
                levels_view(final(levels)@),
                order,
            ),
            None => !holds_order(levels_view(old(levels)@), id) && final(levels)@ == old(levels)@,
        },
{
    let ghost view = levels_view(levels@);
    match find_order(levels, id) {
        None => None,
        Some((price, i)) => {
            let mut level = levels.remove(&price).unwrap();
            let order = level.remove(i);
            if level.len() > 0 {
                levels.insert(price, level);
            }
            proof {
                assert(levels_view(levels@) =~= remove_order_at(view, price, i as int));
            }
            Some(order)
        },
    }
}

/// Queues `order` at the back of the level at its price.
fn rest_in(levels: &mut BTreeMap<Price, Vec<Order>>, order: Order)
    requires
        order.quantity > 0,
    ensures
        levels_view(final(levels)@) == rest_order(levels_view(old(levels)@), order),
        wf_levels(levels_view(old(levels)@)) ==> wf_levels(levels_view(final(levels)@)),
{
    let mut level = match levels.remove(&order.price) {
        Some(level) => level,
        None => Vec::new(),
    };
    level.push(order);
    levels.insert(order.price, level);
}

} // verus!
