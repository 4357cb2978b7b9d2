//! Laws of the matching engine: what holds of every match, stated over the
//! model that the book's contracts use, and proved.

use super::model::{
    Levels, TradeView, after_front_trade, best_price, crosses, holds_order, ids_distinct,
    ids_distinct_across, ids_distinct_within, is_best_price, issued_before, opposite,
    priority_order, queue_volume, queues_in_arrival_order, remove_order_at, removed_from,
    rest_order, set_level, side_volume, sweep, total_filled, traded_quantity, uncrossed, wf_levels,
};
use super::types::{Order, OrderBook, OrderId, OrderRequest, Price, Side};
use vstd::prelude::*;

verus! {

/// A finite, non-empty side of the book has a best price.
pub proof fn lemma_best_price_exists(levels: Levels, side: Side)
    requires
        levels.dom().finite(),
        !levels.dom().is_empty(),
    ensures
        is_best_price(levels, side, best_price(levels, side)),
    decreases levels.dom().len(),
{
    let k = levels.dom().choose();
    let rest = levels.remove(k);
    if rest.dom().is_empty() {
        assert forall|q: Price| #[trigger] levels.contains_key(q) implies q == k by {}
        assert(is_best_price(levels, side, k));
    } else {
        lemma_best_price_exists(rest, side);
        let b = best_price(rest, side);
        let better = match side {
            Side::Bid => if b < k { k } else { b },
            Side::Ask => if k < b { k } else { b },
        };
        assert forall|q: Price| #[trigger] levels.contains_key(q) implies match side {
            Side::Bid => q <= better,
            Side::Ask => better <= q,
        } by {}
        assert(is_best_price(levels, side, better));
    }
}

/// Every unit of the incoming quantity is either traded or left unfilled.
pub proof fn lemma_sweep_conserves_quantity(
    levels: Levels,
    taker_side: Side,
    taker: OrderId,
    limit: Price,
    qty: nat,
)
    ensures
        total_filled(sweep(levels, taker_side, taker, limit, qty).fills) + sweep(
            levels,
            taker_side,
            taker,
            limit,
            qty,
        ).unfilled == qty,
    decreases qty,
{
    if qty == 0 || levels.dom().is_empty() {
    } else {
        let p = best_price(levels, opposite(taker_side));
        let q = traded_quantity(levels[p][0], qty);
        if !crosses(taker_side, p, limit) || q == 0 {
        } else {
            let next = set_level(levels, p, after_front_trade(levels[p], q));
            lemma_sweep_conserves_quantity(next, taker_side, taker, limit, (qty - q) as nat);
            let fills = sweep(levels, taker_side, taker, limit, qty).fills;
            let rest = sweep(next, taker_side, taker, limit, (qty - q) as nat);
            assert(fills.drop_first() =~= rest.fills);
        }
    }
}

/// What every trade of a match looks like: it involves the incoming order,
/// trades something, at a price on the book that crosses the incoming order's
/// limit; trades come best price first; and what rests afterwards is drawn from
/// the price levels that were there before.
pub proof fn lemma_sweep_trades(
    levels: Levels,
    taker_side: Side,
    taker: OrderId,
    limit: Price,
    qty: nat,
)
    requires
        levels.dom().finite(),
    ensures
        ({
            let s = sweep(levels, taker_side, taker, limit, qty);
            &&& s.resting.dom().subset_of(levels.dom())
            &&& forall|i: int| 0 <= i < s.fills.len() ==> {
                &&& (#[trigger] s.fills[i]).taker_order_id == taker
                &&& s.fills[i].quantity > 0
                &&& crosses(taker_side, s.fills[i].price, limit)
                &&& levels.contains_key(s.fills[i].price)
            }
            &&& forall|i: int, j: int| 0 <= i < j < s.fills.len() ==> match taker_side {
                Side::Bid => (#[trigger] s.fills[i]).price <= (#[trigger] s.fills[j]).price,
                Side::Ask => s.fills[i].price >= s.fills[j].price,
            }
        }),
    decreases qty,
{
    if qty == 0 || levels.dom().is_empty() {
    } else {
        let p = best_price(levels, opposite(taker_side));
        let q = traded_quantity(levels[p][0], qty);
        if !crosses(taker_side, p, limit) || q == 0 {
        } else {
            lemma_best_price_exists(levels, opposite(taker_side));
            let next = set_level(levels, p, after_front_trade(levels[p], q));
            vstd::set_lib::lemma_len_subset(next.dom(), levels.dom());
            lemma_sweep_trades(next, taker_side, taker, limit, (qty - q) as nat);
            let s = sweep(levels, taker_side, taker, limit, qty);
            assert forall|i: int| 0 <= i < s.fills.len() implies {
                &&& (#[trigger] s.fills[i]).taker_order_id == taker
                &&& s.fills[i].quantity > 0
                &&& crosses(taker_side, s.fills[i].price, limit)
                &&& levels.contains_key(s.fills[i].price)
            } by {}
            assert forall|i: int, j: int| 0 <= i < j < s.fills.len() implies match taker_side {
                Side::Bid => (#[trigger] s.fills[i]).price <= (#[trigger] s.fills[j]).price,
                Side::Ask => s.fills[i].price >= s.fills[j].price,
            } by {}
        }
    }
}

/// One trade with the front order of the best level keeps a side well formed.
proof fn lemma_front_trade_keeps_wf(levels: Levels, p: Price, q: nat)
    requires
        wf_levels(levels),
        levels.contains_key(p),
        0 < q <= levels[p][0].quantity,
    ensures
        wf_levels(set_level(levels, p, after_front_trade(levels[p], q))),
{
    let level = levels[p];
    let rest = after_front_trade(level, q);
    assert forall|i: int| 0 <= i < rest.len() implies (#[trigger] rest[i]).price == p
        && rest[i].quantity > 0 by {}
    let next = set_level(levels, p, rest);
    assert forall|k: Price| #[trigger] next.contains_key(k) implies {
        &&& next[k].len() > 0
        &&& forall|i: int|
            0 <= i < next[k].len() ==> (#[trigger] next[k][i]).price == k && next[k][i].quantity > 0
    } by {}
}

/// Matching keeps the side it is matched against well formed, and when part of
/// the incoming order is left unfilled, no price that remains on that side
/// crosses the incoming order's limit: an order rests only when nothing it
/// could trade with is left.
pub proof fn lemma_sweep_leaves_nothing_crossing(
    levels: Levels,
    taker_side: Side,
    taker: OrderId,
    limit: Price,
    qty: nat,
)
    requires
        levels.dom().finite(),
        wf_levels(levels),
    ensures
        wf_levels(sweep(levels, taker_side, taker, limit, qty).resting),
        sweep(levels, taker_side, taker, limit, qty).unfilled > 0 ==> forall|p: Price|
            #[trigger] sweep(levels, taker_side, taker, limit, qty).resting.contains_key(p)
                ==> !crosses(taker_side, p, limit),
    decreases qty,
{
    if qty == 0 || levels.dom().is_empty() {
    } else {
        let p = best_price(levels, opposite(taker_side));
        lemma_best_price_exists(levels, opposite(taker_side));
        let q = traded_quantity(levels[p][0], qty);
        if !crosses(taker_side, p, limit) {
            assert forall|k: Price| #[trigger] levels.contains_key(k) implies !crosses(
                taker_side,
                k,
                limit,
            ) by {}
        } else {
            let next = set_level(levels, p, after_front_trade(levels[p], q));
            lemma_front_trade_keeps_wf(levels, p, q);
            lemma_sweep_leaves_nothing_crossing(next, taker_side, taker, limit, (qty - q) as nat);
        }
    }
}

/// Time priority: when every queue is in arrival order, the orders traded at
/// one price are traded in the order they arrived, and the queues stay in
/// arrival order.
pub proof fn lemma_sweep_time_priority(
    levels: Levels,
    taker_side: Side,
    taker: OrderId,
    limit: Price,
    qty: nat,
)
    requires
        levels.dom().finite(),
        wf_levels(levels),
        queues_in_arrival_order(levels),
    ensures
        ({
            let s = sweep(levels, taker_side, taker, limit, qty);
            &&& queues_in_arrival_order(s.resting)
            &&& forall|i: int, j: int|
                0 <= i < j < s.fills.len() && (#[trigger] s.fills[i]).price == (
                    #[trigger] s.fills[j]).price ==> s.fills[i].maker_arrival_seq
                    < s.fills[j].maker_arrival_seq
            &&& forall|i: int|
                0 <= i < s.fills.len() ==> (#[trigger] s.fills[i]).maker_arrival_seq
                    >= levels[s.fills[i].price][0].arrival_seq
        }),
    decreases qty,
{
    if qty == 0 || levels.dom().is_empty() {
    } else {
        let p = best_price(levels, opposite(taker_side));
        lemma_best_price_exists(levels, opposite(taker_side));
        let level = levels[p];
        let q = traded_quantity(level[0], qty);
        if !crosses(taker_side, p, limit) || q == 0 {
        } else {
            let rest_level = after_front_trade(level, q);
            let next = set_level(levels, p, rest_level);
            lemma_front_trade_keeps_wf(levels, p, q);
            assert forall|k: Price, i: int, j: int|
                next.contains_key(k) && 0 <= i < j < next[k].len() implies (
                    #[trigger] next[k][i]).arrival_seq < (#[trigger] next[k][j]).arrival_seq by {}
            lemma_sweep_time_priority(next, taker_side, taker, limit, (qty - q) as nat);
            lemma_sweep_trades(next, taker_side, taker, limit, (qty - q) as nat);
            let s = sweep(levels, taker_side, taker, limit, qty);
            let rest = sweep(next, taker_side, taker, limit, (qty - q) as nat);
            assert forall|j: int| 1 <= j < s.fills.len() implies {
                &&& (#[trigger] s.fills[j]).maker_arrival_seq
                    >= levels[s.fills[j].price][0].arrival_seq
                &&& s.fills[j].price == p ==> s.fills[0].maker_arrival_seq
                    < s.fills[j].maker_arrival_seq
            } by {
                assert(s.fills[j] == rest.fills[j - 1]);
            }
            assert forall|i: int, j: int|
                0 <= i < j < s.fills.len() && (#[trigger] s.fills[i]).price == (
                    #[trigger] s.fills[j]).price implies s.fills[i].maker_arrival_seq
                    < s.fills[j].maker_arrival_seq by {}
        }
    }
}

/// The volume of a side is the volume of any one of its queues plus the volume
/// of the rest.
pub proof fn lemma_side_volume_remove(levels: Levels, k: Price)
    requires
        levels.dom().finite(),
        levels.contains_key(k),
    ensures
        side_volume(levels) == queue_volume(levels[k]) + side_volume(levels.remove(k)),
    decreases levels.dom().len(),
{
    let p = levels.dom().choose();
    if p != k {
        let without_p = levels.remove(p);
        let without_k = levels.remove(k);
        lemma_side_volume_remove(without_p, k);
        lemma_side_volume_remove(without_k, p);
        assert(without_p.remove(k) =~= without_k.remove(p));
    }
}

/// Putting a queue at a price replaces whatever volume stood there.
proof fn lemma_side_volume_insert(levels: Levels, k: Price, level: Seq<Order>)
    requires
        levels.dom().finite(),
    ensures
        side_volume(levels.insert(k, level)) == queue_volume(level) + side_volume(levels.remove(k)),
{
    lemma_side_volume_remove(levels.insert(k, level), k);
    assert(levels.insert(k, level).remove(k) =~= levels.remove(k));
}

/// Queuing an order adds its quantity to the queue's volume.
proof fn lemma_queue_volume_push(level: Seq<Order>, order: Order)
    ensures
        queue_volume(level.push(order)) == queue_volume(level) + order.quantity,
    decreases level.len(),
{
    if level.len() > 0 {
        assert(level.push(order).drop_first() =~= level.drop_first().push(order));
        lemma_queue_volume_push(level.drop_first(), order);
    } else {
        assert(level.push(order).drop_first() =~= Seq::<Order>::empty());
        assert(queue_volume(Seq::<Order>::empty()) == 0);
    }
}

/// Resting an order adds its quantity to the side's volume.
pub proof fn lemma_rest_order_volume(levels: Levels, order: Order)
    requires
        levels.dom().finite(),
    ensures
        rest_order(levels, order).dom().finite(),
        side_volume(rest_order(levels, order)) == side_volume(levels) + order.quantity,
{
    let p = order.price;
    if levels.contains_key(p) {
        lemma_side_volume_insert(levels, p, levels[p].push(order));
        lemma_queue_volume_push(levels[p], order);
        lemma_side_volume_remove(levels, p);
    } else {
        lemma_side_volume_insert(levels, p, seq![order]);
        assert(seq![order].drop_first() =~= Seq::<Order>::empty());
        assert(queue_volume(Seq::<Order>::empty()) == 0);
        assert(levels.remove(p) =~= levels);
    }
}

/// Matching moves quantity from the side it is matched against into trades:
/// the volume left on that side plus the volume traded is the volume there was.
pub proof fn lemma_sweep_conserves_volume(
    levels: Levels,
    taker_side: Side,
    taker: OrderId,
    limit: Price,
    qty: nat,
)
    requires
        levels.dom().finite(),
        wf_levels(levels),
    ensures
        side_volume(sweep(levels, taker_side, taker, limit, qty).resting) + total_filled(
            sweep(levels, taker_side, taker, limit, qty).fills,
        ) == side_volume(levels),
    decreases qty,
{
    if qty == 0 || levels.dom().is_empty() {
    } else {
        let p = best_price(levels, opposite(taker_side));
        lemma_best_price_exists(levels, opposite(taker_side));
        let level = levels[p];
        let q = traded_quantity(level[0], qty);
        if !crosses(taker_side, p, limit) || q == 0 {
        } else {
            let rest_level = after_front_trade(level, q);
            let next = set_level(levels, p, rest_level);
            lemma_front_trade_keeps_wf(levels, p, q);
            vstd::set_lib::lemma_len_subset(next.dom(), levels.dom());
            lemma_sweep_conserves_volume(next, taker_side, taker, limit, (qty - q) as nat);
            lemma_side_volume_remove(levels, p);
            // the queue at `p` loses exactly `q`
            if level[0].quantity != q {
                assert(rest_level.drop_first() =~= level.drop_first());
            }
            if rest_level.len() > 0 {
                lemma_side_volume_insert(levels, p, rest_level);
            }
            let s = sweep(levels, taker_side, taker, limit, qty);
            let rest = sweep(next, taker_side, taker, limit, (qty - q) as nat);
            assert(s.fills.drop_first() =~= rest.fills);
        }
    }
}

/// Matching keeps every resting order numbered below the book's counters.
proof fn lemma_sweep_keeps_issued(
    levels: Levels,
    taker_side: Side,
    taker: OrderId,
    limit: Price,
    qty: nat,
    next_seq: u64,
    next_id: u64,
)
    requires
        levels.dom().finite(),
        wf_levels(levels),
        issued_before(levels, next_seq, next_id),
    ensures
        issued_before(sweep(levels, taker_side, taker, limit, qty).resting, next_seq, next_id),
    decreases qty,
{
    if qty == 0 || levels.dom().is_empty() {
    } else {
        let p = best_price(levels, opposite(taker_side));
        lemma_best_price_exists(levels, opposite(taker_side));
        let level = levels[p];
        let q = traded_quantity(level[0], qty);
        if !crosses(taker_side, p, limit) || q == 0 {
        } else {
            let next = set_level(levels, p, after_front_trade(level, q));
            lemma_front_trade_keeps_wf(levels, p, q);
            assert forall|k: Price, i: int| next.contains_key(k) && 0 <= i < next[k].len() implies
                (#[trigger] next[k][i]).arrival_seq < next_seq && next[k][i].id.0 < next_id by {}
            let rest_qty = (qty - q) as nat;
            lemma_sweep_keeps_issued(next, taker_side, taker, limit, rest_qty, next_seq, next_id);
        }
    }
}

/// Resting an order numbered after every order of a side keeps the side's
/// queues in arrival order.
proof fn lemma_rest_newest_order(levels: Levels, order: Order)
    requires
        queues_in_arrival_order(levels),
        issued_before(levels, order.arrival_seq, order.id.0),
        order.arrival_seq < u64::MAX,
        order.id.0 < u64::MAX,
    ensures
        queues_in_arrival_order(rest_order(levels, order)),
        issued_before(
            rest_order(levels, order),
            (order.arrival_seq + 1) as u64,
            (order.id.0 + 1) as u64,
        ),
{
    let after = rest_order(levels, order);
    let p = order.price;
    assert forall|k: Price, i: int, j: int|
        after.contains_key(k) && 0 <= i < j < after[k].len() implies (
            #[trigger] after[k][i]).arrival_seq < (#[trigger] after[k][j]).arrival_seq by {}
    assert forall|k: Price, i: int| after.contains_key(k) && 0 <= i < after[k].len() implies
        (#[trigger] after[k][i]).arrival_seq < order.arrival_seq + 1
            && after[k][i].id.0 < order.id.0 + 1 by {}
}

/// The sides of a book are finite maps.
proof fn lemma_sides_finite(book: &OrderBook)
    ensures
        book.bid_levels().dom().finite(),
        book.ask_levels().dom().finite(),
        book.levels_on(Side::Bid).dom().finite(),
        book.levels_on(Side::Ask).dom().finite(),
{
    assert(book.bid_levels().dom() =~= book.bids@.dom());
    assert(book.ask_levels().dom() =~= book.asks@.dom());
}

/// Matching an order never creates or destroys quantity: the volume resting on
/// both sides afterwards, plus twice the volume traded (once for each party of
/// each trade), is the volume that rested before plus the incoming quantity.
/// The incoming order never trades more than it asked for.
pub proof fn lemma_matching_conserves_volume(book: &OrderBook, request: OrderRequest)
    requires
        book.wf(),
    ensures
        ({
            let o = book.after_matching(request);
            &&& total_filled(o.fills) <= request.quantity
            &&& side_volume(o.bids) + side_volume(o.asks) + 2 * total_filled(o.fills)
                == side_volume(book.bid_levels()) + side_volume(book.ask_levels())
                + request.quantity
        }),
{
    lemma_sides_finite(book);
    let taker = book.next_order(request.price, request.quantity);
    let side = request.side;
    let own = book.levels_on(side);
    let other = book.levels_on(opposite(side));
    let sw = sweep(other, side, taker.id, taker.price, taker.quantity as nat);
    lemma_sweep_conserves_quantity(other, side, taker.id, taker.price, taker.quantity as nat);
    lemma_sweep_conserves_volume(other, side, taker.id, taker.price, taker.quantity as nat);
    if sw.unfilled > 0 {
        lemma_rest_order_volume(own, Order { quantity: sw.unfilled as u64, ..taker });
    }
}

/// An incoming order rests only when nothing it could trade with is left on
/// the other side; and a book in which every bid is below every ask stays so
/// after any order is matched.
pub proof fn lemma_matching_keeps_book_uncrossed(book: &OrderBook, request: OrderRequest)
    requires
        book.wf(),
    ensures
        ({
            let o = book.after_matching(request);
            let rest_of_other = match request.side {
                Side::Bid => o.asks,
                Side::Ask => o.bids,
            };
            &&& total_filled(o.fills) < request.quantity ==> forall|p: Price|
                #[trigger] rest_of_other.contains_key(p) ==> !crosses(
                    request.side,
                    p,
                    request.price,
                )
            &&& uncrossed(book.bid_levels(), book.ask_levels()) ==> uncrossed(o.bids, o.asks)
        }),
{
    lemma_sides_finite(book);
    let taker = book.next_order(request.price, request.quantity);
    let side = request.side;
    let other = book.levels_on(opposite(side));
    lemma_sweep_conserves_quantity(other, side, taker.id, taker.price, taker.quantity as nat);
    lemma_sweep_leaves_nothing_crossing(other, side, taker.id, taker.price, taker.quantity as nat);
    lemma_sweep_trades(other, side, taker.id, taker.price, taker.quantity as nat);
    let o = book.after_matching(request);
    if uncrossed(book.bid_levels(), book.ask_levels()) {
        assert forall|b: Price, a: Price|
            #[trigger] o.bids.contains_key(b) && #[trigger] o.asks.contains_key(a) implies b
                < a by {}
    }
}

/// Every trade of an incoming order involves that order under its new id,
/// trades something, at a price that was on the book and that crosses the
/// order's limit; and trades come best price first.
pub proof fn lemma_matching_trades(book: &OrderBook, request: OrderRequest)
    requires
        book.wf(),
    ensures
        ({
            let o = book.after_matching(request);
            let other = book.levels_on(opposite(request.side));
            &&& forall|i: int| 0 <= i < o.fills.len() ==> {
                &&& (#[trigger] o.fills[i]).taker_order_id == OrderId(book.order_id_counter)
                &&& o.fills[i].quantity > 0
                &&& crosses(request.side, o.fills[i].price, request.price)
                &&& other.contains_key(o.fills[i].price)
            }
            &&& forall|i: int, j: int| 0 <= i < j < o.fills.len() ==> match request.side {
                Side::Bid => (#[trigger] o.fills[i]).price <= (#[trigger] o.fills[j]).price,
                Side::Ask => o.fills[i].price >= o.fills[j].price,
            }
        }),
{
    lemma_sides_finite(book);
    let taker = book.next_order(request.price, request.quantity);
    let other = book.levels_on(opposite(request.side));
    lemma_sweep_trades(other, request.side, taker.id, taker.price, taker.quantity as nat);
}

/// In a book whose orders were all numbered by it, in arrival order, matching
/// an order trades the orders resting at one price oldest first, and leaves a
/// book whose orders were all numbered by it, in arrival order, under the
/// advanced counters. In particular the incoming order's id is new to the book.
pub proof fn lemma_matching_keeps_arrival_order(book: &OrderBook, request: OrderRequest)
    requires
        book.wf(),
        book.issued_in_order(),
        book.can_make_order(),
    ensures
        !holds_order(book.bid_levels(), OrderId(book.order_id_counter)),
        !holds_order(book.ask_levels(), OrderId(book.order_id_counter)),
        ({
            let o = book.after_matching(request);
            let next_seq = (book.next_seq + 1) as u64;
            let next_id = (book.order_id_counter + 1) as u64;
            &&& forall|i: int, j: int|
                0 <= i < j < o.fills.len() && (#[trigger] o.fills[i]).price == (
                    #[trigger] o.fills[j]).price ==> o.fills[i].maker_arrival_seq
                    < o.fills[j].maker_arrival_seq
            &&& queues_in_arrival_order(o.bids)
            &&& queues_in_arrival_order(o.asks)
            &&& issued_before(o.bids, next_seq, next_id)
            &&& issued_before(o.asks, next_seq, next_id)
        }),
{
    lemma_sides_finite(book);
    let taker = book.next_order(request.price, request.quantity);
    let side = request.side;
    let own = book.levels_on(side);
    let other = book.levels_on(opposite(side));
    let (s1, n1) = ((book.next_seq + 1) as u64, (book.order_id_counter + 1) as u64);
    let sw = sweep(other, side, taker.id, taker.price, taker.quantity as nat);
    lemma_sweep_time_priority(other, side, taker.id, taker.price, taker.quantity as nat);
    let qty = taker.quantity as nat;
    let (s0, n0) = (book.next_seq, book.order_id_counter);
    lemma_sweep_keeps_issued(other, side, taker.id, taker.price, qty, s0, n0);
    lemma_sweep_keeps_issued(other, side, taker.id, taker.price, taker.quantity as nat, s1, n1);
    lemma_issued_before_weakens(own, book.next_seq, book.order_id_counter, s1, n1);
    if sw.unfilled > 0 {
        lemma_rest_newest_order(own, Order { quantity: sw.unfilled as u64, ..taker });
    }
    lemma_issued_before_weakens(sw.resting, book.next_seq, book.order_id_counter, s1, n1);
    assert forall|p: Price, i: int| #![trigger book.bid_levels()[p][i]]
        book.bid_levels().contains_key(p) && 0 <= i < book.bid_levels()[p].len()
        implies book.bid_levels()[p][i].id != OrderId(book.order_id_counter) by {}
    assert forall|p: Price, i: int| #![trigger book.ask_levels()[p][i]]
        book.ask_levels().contains_key(p) && 0 <= i < book.ask_levels()[p].len()
        implies book.ask_levels()[p][i].id != OrderId(book.order_id_counter) by {}
}

/// Bounds on order numbers that hold for smaller counters hold for larger ones.
proof fn lemma_issued_before_weakens(levels: Levels, s0: u64, n0: u64, s1: u64, n1: u64)
    requires
        issued_before(levels, s0, n0),
        s0 <= s1,
        n0 <= n1,
    ensures
        issued_before(levels, s1, n1),
{
}

/// Adding an order without matching it keeps a book whose orders were all
/// numbered by it, in arrival order, so.
pub proof fn lemma_adding_keeps_arrival_order(
    book: &OrderBook,
    price: Price,
    quantity: u64,
    side: Side,
    after: &OrderBook,
)
    requires
        book.issued_in_order(),
        book.can_make_order(),
        book.adds_into(price, quantity, side, *after),
    ensures
        after.issued_in_order(),
{
    if quantity > 0 {
        let (s1, n1) = ((book.next_seq + 1) as u64, (book.order_id_counter + 1) as u64);
        lemma_rest_newest_order(book.levels_on(side), book.next_order(price, quantity));
        let other = book.levels_on(opposite(side));
        lemma_issued_before_weakens(other, book.next_seq, book.order_id_counter, s1, n1);
    }
}

/// Cancelling an order right after adding it gives back the book's orders as
/// they were: the cancel finds exactly the order that was added.
pub proof fn lemma_cancel_undoes_add(
    book: &OrderBook,
    price: Price,
    quantity: u64,
    side: Side,
    added: &OrderBook,
    after: &OrderBook,
    cancelled: Option<Order>,
)
    requires
        book.wf(),
        book.issued_in_order(),
        book.can_make_order(),
        quantity > 0,
        book.adds_into(price, quantity, side, *added),
        added.cancels_into(OrderId(book.order_id_counter), *after, cancelled),
    ensures
        cancelled == Some(book.next_order(price, quantity)),
        after.bid_levels() == book.bid_levels(),
        after.ask_levels() == book.ask_levels(),
{
    let id = OrderId(book.order_id_counter);
    let o = book.next_order(price, quantity);
    let before = book.levels_on(side);
    let with = added.levels_on(side);
    let last = if before.contains_key(price) { before[price].len() as int } else { 0 };
    assert(with[price][last] == o);
    assert(holds_order(with, id));
    let other = book.levels_on(opposite(side));
    assert(!holds_order(other, id)) by {
        assert forall|p: Price, i: int| #![trigger other[p][i]]
            other.contains_key(p) && 0 <= i < other[p].len() implies other[p][i].id != id by {}
    }
    // the added order is the only one with its id
    assert forall|p: Price, i: int|
        with.contains_key(p) && 0 <= i < with[p].len() && (#[trigger] with[p][i]).id == id implies p
            == price && i == last by {
        if p != price {
            assert(with[p] == before[p]);
        } else if i < last {
            assert(with[p][i] == before[p][i]);
        }
    }
    let after_side = after.levels_on(side);
    match cancelled {
        None => {},
        Some(order) => {
            assert(removed_from(with, after_side, order));
            let (p, i) = choose|p: Price, i: int|
                #![trigger with[p][i]]
                with.contains_key(p) && 0 <= i < with[p].len() && with[p][i] == order
                    && after_side == remove_order_at(with, p, i);
            assert(p == price && i == last);
            if before.contains_key(price) {
                assert(with[price].remove(last) =~= before[price]);
                assert(before[price].len() > 0);
                assert(after_side =~= before);
            } else {
                assert(with == before.insert(price, seq![o]));
                assert(with[price].remove(0) =~= Seq::<Order>::empty());
                assert(after_side == with.remove(price));
                assert(after_side =~= before);
            }
        },
    }
}

/// Taking an order out of a queue takes its quantity out of the queue's volume.
proof fn lemma_queue_volume_remove(level: Seq<Order>, i: int)
    requires
        0 <= i < level.len(),
    ensures
        queue_volume(level.remove(i)) + level[i].quantity == queue_volume(level),
    decreases level.len(),
{
    if i == 0 {
    } else {
        let rest = level.drop_first();
        lemma_queue_volume_remove(rest, i - 1);
        assert(level.remove(i).drop_first() =~= rest.remove(i - 1));
    }
}

/// Taking an order off a side keeps the side well formed, its queues in
/// arrival order and its orders' numbers, draws its prices from those that
/// were there, and takes the order's quantity out of the side's volume.
proof fn lemma_remove_order(before: Levels, after: Levels, order: Order)
    requires
        before.dom().finite(),
        wf_levels(before),
        removed_from(before, after, order),
    ensures
        wf_levels(after),
        after.dom().subset_of(before.dom()),
        side_volume(after) + order.quantity == side_volume(before),
        queues_in_arrival_order(before) ==> queues_in_arrival_order(after),
        forall|s: u64, n: u64|
            issued_before(before, s, n) ==> #[trigger] issued_before(after, s, n),
{
    let (p, i) = choose|p: Price, i: int|
        #![trigger before[p][i]]
        before.contains_key(p) && 0 <= i < before[p].len() && before[p][i] == order
            && after == remove_order_at(before, p, i);
    let level = before[p];
    let rest = level.remove(i);
    assert forall|j: int| 0 <= j < rest.len() implies #[trigger] rest[j] == (if j < i {
        level[j]
    } else {
        level[j + 1]
    }) by {}
    lemma_queue_volume_remove(level, i);
    lemma_side_volume_remove(before, p);
    if rest.len() > 0 {
        lemma_side_volume_insert(before, p, rest);
    }
    assert forall|k: Price| #[trigger] after.contains_key(k) && k != p implies after[k]
        == before[k] by {}
    if queues_in_arrival_order(before) {
        assert forall|k: Price, a: int, b: int|
            after.contains_key(k) && 0 <= a < b < after[k].len() implies (
                #[trigger] after[k][a]).arrival_seq < (#[trigger] after[k][b]).arrival_seq by {}
    }
    assert forall|s: u64, n: u64| issued_before(before, s, n) implies #[trigger] issued_before(
        after,
        s,
        n,
    ) by {
        assert forall|k: Price, j: int| after.contains_key(k) && 0 <= j < after[k].len() implies
            (#[trigger] after[k][j]).arrival_seq < s && after[k][j].id.0 < n by {}
    }
    assert forall|k: Price| #[trigger] after.contains_key(k) implies {
        &&& after[k].len() > 0
        &&& forall|j: int|
            0 <= j < after[k].len() ==> (#[trigger] after[k][j]).price == k && after[k][j].quantity
                > 0
    } by {
        if k == p {
            assert forall|j: int| 0 <= j < after[k].len() implies (#[trigger] after[k][j]).price
                == k && after[k][j].quantity > 0 by {}
        }
    }
}

/// Cancelling takes exactly the cancelled order's quantity off the book and
/// nothing else, and keeps a book whose bids are below its asks so, and a book
/// whose orders were all numbered by it, in arrival order, so.
pub proof fn lemma_cancel_keeps_book(
    book: &OrderBook,
    id: OrderId,
    after: &OrderBook,
    cancelled: Option<Order>,
)
    requires
        book.wf(),
        book.cancels_into(id, *after, cancelled),
    ensures
        side_volume(after.bid_levels()) + side_volume(after.ask_levels()) + match cancelled {
            Some(order) => order.quantity as nat,
            None => 0,
        } == side_volume(book.bid_levels()) + side_volume(book.ask_levels()),
        uncrossed(book.bid_levels(), book.ask_levels()) ==> uncrossed(
            after.bid_levels(),
            after.ask_levels(),
        ),
        book.issued_in_order() ==> after.issued_in_order(),
{
    lemma_sides_finite(book);
    lemma_sides_finite(after);
    match cancelled {
        None => {},
        Some(order) => {
            if holds_order(book.bid_levels(), id) {
                lemma_remove_order(book.bid_levels(), after.bid_levels(), order);
            } else {
                lemma_remove_order(book.ask_levels(), after.ask_levels(), order);
            }
        },
    }
}

/// By id and arrival number, `after` is the back part of the queue `before`:
/// the orders that are left of it after trading from the front.
pub open spec fn is_tail_of(after: Seq<Order>, before: Seq<Order>) -> bool {
    &&& after.len() <= before.len()
    &&& forall|i: int|
        0 <= i < after.len() ==> (#[trigger] after[i]).id == before[i + (before.len()
            - after.len())].id && after[i].arrival_seq == before[i + (before.len()
            - after.len())].arrival_seq
}

/// Every queue of `after` is the back part of the queue at the same price in
/// `before`.
pub open spec fn drawn_from(after: Levels, before: Levels) -> bool {
    forall|p: Price| #[trigger]
        after.contains_key(p) ==> before.contains_key(p) && is_tail_of(after[p], before[p])
}

/// Drawing from a side that was drawn from another draws from that other.
proof fn lemma_drawn_from_trans(a: Levels, b: Levels, c: Levels)
    requires
        drawn_from(a, b),
        drawn_from(b, c),
    ensures
        drawn_from(a, c),
{
    assert forall|p: Price| #[trigger] a.contains_key(p) implies c.contains_key(p) && is_tail_of(
        a[p],
        c[p],
    ) by {
        let (x, y, z) = (a[p], b[p], c[p]);
        assert forall|i: int| 0 <= i < x.len() implies (#[trigger] x[i]).id == z[i + (z.len()
            - x.len())].id && x[i].arrival_seq == z[i + (z.len() - x.len())].arrival_seq by {
            let j = i + (y.len() - x.len());
            assert(y[j].id == z[j + (z.len() - y.len())].id);
        }
    }
}

/// What a match leaves of a side is drawn from what was there.
pub proof fn lemma_sweep_draws_from(
    levels: Levels,
    taker_side: Side,
    taker: OrderId,
    limit: Price,
    qty: nat,
)
    requires
        levels.dom().finite(),
        wf_levels(levels),
    ensures
        drawn_from(sweep(levels, taker_side, taker, limit, qty).resting, levels),
    decreases qty,
{
    if qty == 0 || levels.dom().is_empty() {
        assert forall|p: Price| #[trigger] levels.contains_key(p) implies is_tail_of(
            levels[p],
            levels[p],
        ) by {}
    } else {
        let p = best_price(levels, opposite(taker_side));
        lemma_best_price_exists(levels, opposite(taker_side));
        let level = levels[p];
        let q = traded_quantity(level[0], qty);
        if !crosses(taker_side, p, limit) || q == 0 {
            assert forall|k: Price| #[trigger] levels.contains_key(k) implies is_tail_of(
                levels[k],
                levels[k],
            ) by {}
        } else {
            let rest = after_front_trade(level, q);
            let next = set_level(levels, p, rest);
            lemma_front_trade_keeps_wf(levels, p, q);
            assert(is_tail_of(rest, level)) by {
                if level[0].quantity == q {
                    assert forall|i: int| 0 <= i < rest.len() implies (#[trigger] rest[i]).id
                        == level[i + (level.len() - rest.len())].id by {
                        assert(rest[i] == level[i + 1]);
                    }
                }
            }
            assert forall|k: Price| #[trigger] next.contains_key(k) implies levels.contains_key(k)
                && is_tail_of(next[k], levels[k]) by {
                if k != p {
                    assert(next[k] == levels[k]);
                }
            }
            lemma_sweep_draws_from(next, taker_side, taker, limit, (qty - q) as nat);
            let resting = sweep(levels, taker_side, taker, limit, qty).resting;
            lemma_drawn_from_trans(resting, next, levels);
        }
    }
}

/// A side is drawn from itself.
proof fn lemma_drawn_from_refl(a: Levels)
    ensures
        drawn_from(a, a),
{
    assert forall|p: Price| #[trigger] a.contains_key(p) implies is_tail_of(a[p], a[p]) by {}
}

/// Sides drawn from sides whose ids are distinct have distinct ids.
proof fn lemma_drawn_keeps_ids_distinct(a2: Levels, a: Levels, b2: Levels, b: Levels)
    requires
        drawn_from(a2, a),
        drawn_from(b2, b),
    ensures
        ids_distinct_within(a) ==> ids_distinct_within(a2),
        ids_distinct_across(a, b) ==> ids_distinct_across(a2, b2),
{
    if ids_distinct_within(a) {
        assert forall|p: Price, i: int, q: Price, j: int|
            a2.contains_key(p) && 0 <= i < a2[p].len() && a2.contains_key(q) && 0 <= j < a2[q].len()
                && (p != q || i != j) implies (#[trigger] a2[p][i]).id
                != (#[trigger] a2[q][j]).id by {
            let i0 = i + (a[p].len() - a2[p].len());
            let j0 = j + (a[q].len() - a2[q].len());
            assert(a2[p][i].id == a[p][i0].id);
            assert(a2[q][j].id == a[q][j0].id);
        }
    }
    if ids_distinct_across(a, b) {
        assert forall|p: Price, i: int, q: Price, j: int|
            a2.contains_key(p) && 0 <= i < a2[p].len() && b2.contains_key(q) && 0 <= j < b2[q].len()
                implies (#[trigger] a2[p][i]).id != (#[trigger] b2[q][j]).id by {
            let i0 = i + (a[p].len() - a2[p].len());
            let j0 = j + (b[q].len() - b2[q].len());
            assert(a2[p][i].id == a[p][i0].id);
            assert(b2[q][j].id == b[q][j0].id);
        }
    }
}

/// Distinct ids across two sides do not depend on which side is named first.
proof fn lemma_ids_distinct_across_flip(a: Levels, b: Levels)
    requires
        ids_distinct_across(a, b),
    ensures
        ids_distinct_across(b, a),
{
    assert forall|p: Price, i: int, q: Price, j: int|
        b.contains_key(p) && 0 <= i < b[p].len() && a.contains_key(q) && 0 <= j < a[q].len()
            implies (#[trigger] b[p][i]).id != (#[trigger] a[q][j]).id by {
        assert(a[q][j].id != b[p][i].id);
    }
}

/// Resting an order whose id is above every resting id keeps ids distinct.
proof fn lemma_rest_order_keeps_ids_distinct(
    own: Levels,
    other: Levels,
    order: Order,
    s0: u64,
    s1: u64,
)
    requires
        ids_distinct_within(own),
        ids_distinct_across(own, other),
        issued_before(own, s0, order.id.0),
        issued_before(other, s1, order.id.0),
    ensures
        ids_distinct_within(rest_order(own, order)),
        ids_distinct_across(rest_order(own, order), other),
{
    let after = rest_order(own, order);
    let pr = order.price;
    let last = if own.contains_key(pr) { own[pr].len() as int } else { 0 };
    // every order of `after` is an order of `own`, except the new one at the back
    assert forall|p: Price, i: int| after.contains_key(p) && 0 <= i < after[p].len() && !(p == pr
        && i == last) implies own.contains_key(p) && 0 <= i < own[p].len() && #[trigger] after[p][i]
        == own[p][i] by {}
    assert forall|p: Price, i: int, q: Price, j: int|
        after.contains_key(p) && 0 <= i < after[p].len() && after.contains_key(q) && 0 <= j
            < after[q].len() && (p != q || i != j) implies (#[trigger] after[p][i]).id != (
        #[trigger] after[q][j]).id by {
        if p == pr && i == last {
            assert(after[q][j] == own[q][j]);
        } else if q == pr && j == last {
            assert(after[p][i] == own[p][i]);
        } else {
            assert(after[p][i] == own[p][i] && after[q][j] == own[q][j]);
        }
    }
    assert forall|p: Price, i: int, q: Price, j: int|
        after.contains_key(p) && 0 <= i < after[p].len() && other.contains_key(q) && 0 <= j
            < other[q].len() implies (#[trigger] after[p][i]).id != (#[trigger] other[q][j]).id by {
        if !(p == pr && i == last) {
            assert(after[p][i] == own[p][i]);
        }
    }
}

/// Taking an order off a side keeps ids distinct.
proof fn lemma_removal_keeps_ids_distinct(
    before: Levels,
    after: Levels,
    order: Order,
    other: Levels,
)
    requires
        removed_from(before, after, order),
    ensures
        ids_distinct_within(before) ==> ids_distinct_within(after),
        ids_distinct_across(before, other) ==> ids_distinct_across(after, other),
{
    let (pr, k) = choose|p: Price, i: int|
        #![trigger before[p][i]]
        before.contains_key(p) && 0 <= i < before[p].len() && before[p][i] == order
            && after == remove_order_at(before, p, i);
    // where an order of `after` stood in `before`
    assert forall|p: Price, i: int| after.contains_key(p) && 0 <= i < after[p].len() implies
        before.contains_key(p) && #[trigger] after[p][i] == before[p][if p == pr && i >= k {
            i + 1
        } else {
            i
        }] && 0 <= (if p == pr && i >= k { i + 1 } else { i }) < before[p].len() by {}
    if ids_distinct_within(before) {
        assert forall|p: Price, i: int, q: Price, j: int|
            after.contains_key(p) && 0 <= i < after[p].len() && after.contains_key(q) && 0 <= j
                < after[q].len() && (p != q || i != j) implies (#[trigger] after[p][i]).id != (
            #[trigger] after[q][j]).id by {
            let i0 = if p == pr && i >= k { i + 1 } else { i };
            let j0 = if q == pr && j >= k { j + 1 } else { j };
            assert(after[p][i] == before[p][i0] && after[q][j] == before[q][j0]);
        }
    }
    if ids_distinct_across(before, other) {
        assert forall|p: Price, i: int, q: Price, j: int|
            after.contains_key(p) && 0 <= i < after[p].len() && other.contains_key(q) && 0 <= j
                < other[q].len() implies (#[trigger] after[p][i]).id
                != (#[trigger] other[q][j]).id by {
            let i0 = if p == pr && i >= k { i + 1 } else { i };
            assert(after[p][i] == before[p][i0]);
        }
    }
}

/// Resting an order that has something to trade keeps a side well formed.
proof fn lemma_rest_order_keeps_wf(levels: Levels, order: Order)
    requires
        wf_levels(levels),
        order.quantity > 0,
    ensures
        wf_levels(rest_order(levels, order)),
{
    let after = rest_order(levels, order);
    assert forall|k: Price| #[trigger] after.contains_key(k) implies {
        &&& after[k].len() > 0
        &&& forall|i: int|
            0 <= i < after[k].len() ==> (#[trigger] after[k][i]).price == k && after[k][i].quantity
                > 0
    } by {
        if k == order.price && levels.contains_key(k) {
            assert forall|i: int| 0 <= i < after[k].len() implies (#[trigger] after[k][i]).price
                == k && after[k][i].quantity > 0 by {
                if i < levels[k].len() {
                    assert(after[k][i] == levels[k][i]);
                }
            }
        }
    }
}

/// Adding an order without matching it keeps a consistent book consistent:
/// in particular no two resting orders share an id.
pub proof fn lemma_adding_keeps_book_consistent(
    book: &OrderBook,
    price: Price,
    quantity: u64,
    side: Side,
    after: &OrderBook,
)
    requires
        book.consistent(),
        book.can_make_order(),
        book.adds_into(price, quantity, side, *after),
    ensures
        after.consistent(),
{
    if quantity > 0 {
        lemma_adding_keeps_arrival_order(book, price, quantity, side, after);
        let o = book.next_order(price, quantity);
        let (bids, asks) = (book.bid_levels(), book.ask_levels());
        let s0 = book.next_seq;
        match side {
            Side::Bid => {
                lemma_rest_order_keeps_wf(bids, o);
                lemma_rest_order_keeps_ids_distinct(bids, asks, o, s0, s0);
            },
            Side::Ask => {
                lemma_rest_order_keeps_wf(asks, o);
                lemma_ids_distinct_across_flip(bids, asks);
                lemma_rest_order_keeps_ids_distinct(asks, bids, o, s0, s0);
                lemma_ids_distinct_across_flip(after.ask_levels(), bids);
            },
        }
    }
}

/// Matching an order keeps a consistent book consistent, and a book in which
/// every bid is below every ask stays so: well formed, numbered by the book,
/// queues in arrival order, and no two resting orders sharing an id.
pub proof fn lemma_matching_keeps_book_consistent(
    book: &OrderBook,
    request: OrderRequest,
    after: &OrderBook,
    fills: Seq<TradeView>,
)
    requires
        book.consistent(),
        book.can_make_order(),
        book.matches_into(request, *after, fills),
    ensures
        after.consistent(),
        uncrossed(book.bid_levels(), book.ask_levels()) ==> uncrossed(
            after.bid_levels(),
            after.ask_levels(),
        ),
{
    lemma_sides_finite(book);
    lemma_matching_keeps_arrival_order(book, request);
    lemma_matching_keeps_book_uncrossed(book, request);
    let taker = book.next_order(request.price, request.quantity);
    let side = request.side;
    let own = book.levels_on(side);
    let other = book.levels_on(opposite(side));
    let qty = taker.quantity as nat;
    let sw = sweep(other, side, taker.id, taker.price, qty);
    let (s0, n0) = (book.next_seq, book.order_id_counter);
    lemma_sweep_leaves_nothing_crossing(other, side, taker.id, taker.price, qty);
    lemma_sweep_draws_from(other, side, taker.id, taker.price, qty);
    lemma_sweep_keeps_issued(other, side, taker.id, taker.price, qty, s0, n0);
    lemma_sweep_conserves_quantity(other, side, taker.id, taker.price, qty);
    lemma_drawn_from_refl(own);
    lemma_drawn_keeps_ids_distinct(sw.resting, other, sw.resting, other);
    if side == Side::Ask {
        lemma_ids_distinct_across_flip(book.bid_levels(), book.ask_levels());
    }
    // `own` against what is left of `other`
    lemma_drawn_keeps_ids_distinct(own, own, sw.resting, other);
    let rested = Order { quantity: sw.unfilled as u64, ..taker };
    if sw.unfilled > 0 {
        lemma_rest_order_keeps_wf(own, rested);
        lemma_rest_order_keeps_ids_distinct(own, sw.resting, rested, s0, s0);
    }
    let new_own = if sw.unfilled > 0 { rest_order(own, rested) } else { own };
    if side == Side::Ask {
        lemma_ids_distinct_across_flip(new_own, sw.resting);
    }
}

/// Cancelling keeps a consistent book consistent: in particular no two
/// resting orders share an id afterwards.
pub proof fn lemma_cancel_keeps_book_consistent(
    book: &OrderBook,
    id: OrderId,
    after: &OrderBook,
    cancelled: Option<Order>,
)
    requires
        book.consistent(),
        book.cancels_into(id, *after, cancelled),
    ensures
        after.consistent(),
{
    lemma_sides_finite(book);
    lemma_cancel_keeps_book(book, id, after, cancelled);
    let (bids, asks) = (book.bid_levels(), book.ask_levels());
    match cancelled {
        None => {},
        Some(order) => {
            if holds_order(bids, id) {
                lemma_remove_order(bids, after.bid_levels(), order);
                lemma_removal_keeps_ids_distinct(bids, after.bid_levels(), order, asks);
            } else {
                lemma_remove_order(asks, after.ask_levels(), order);
                lemma_ids_distinct_across_flip(bids, asks);
                lemma_removal_keeps_ids_distinct(asks, after.ask_levels(), order, bids);
                lemma_ids_distinct_across_flip(after.ask_levels(), bids);
            }
        },
    }
}

/// Sweeping a side that holds a single price level `p`, for exactly the
/// quantity resting there and with a limit that crosses `p`, trades once with
/// every order of the level, oldest first, each for its whole quantity at
/// price `p`; nothing is left unfilled and nothing is left on that side.
pub proof fn lemma_sweep_single_level(
    level: Seq<Order>,
    p: Price,
    taker_side: Side,
    taker: OrderId,
    limit: Price,
)
    requires
        forall|i: int| 0 <= i < level.len() ==> (#[trigger] level[i]).quantity > 0,
        crosses(taker_side, p, limit),
    ensures
        ({
            let s = sweep(
                set_level(Map::empty(), p, level),
                taker_side,
                taker,
                limit,
                queue_volume(level),
            );
            &&& s.fills.len() == level.len()
            &&& forall|i: int| 0 <= i < level.len() ==> {
                &&& (#[trigger] s.fills[i]).taker_order_id == taker
                &&& s.fills[i].maker_order_id == level[i].id
                &&& s.fills[i].maker_arrival_seq == level[i].arrival_seq
                &&& s.fills[i].quantity == level[i].quantity
                &&& s.fills[i].price == p
            }
            &&& s.resting == Map::<Price, Seq<Order>>::empty()
            &&& s.unfilled == 0
        }),
    decreases level.len(),
{
    let levels = set_level(Map::<Price, Seq<Order>>::empty(), p, level);
    let qty = queue_volume(level);
    if level.len() > 0 {
        let rest = level.drop_first();
        lemma_sweep_single_level(rest, p, taker_side, taker, limit);
        // the only price is the best one, and its front order trades all it has
        assert(is_best_price(levels, opposite(taker_side), p));
        assert(traded_quantity(level[0], qty) == level[0].quantity);
        let next = set_level(levels, p, rest);
        assert(next =~= set_level(Map::<Price, Seq<Order>>::empty(), p, rest));
        let s = sweep(levels, taker_side, taker, limit, qty);
        let s1 = sweep(next, taker_side, taker, limit, queue_volume(rest));
        assert forall|i: int| 0 < i < level.len() implies s.fills[i] == s1.fills[i - 1] by {}
    }
}

/// When one side of the book is empty and the other holds a single price level
/// `p`, an incoming order for exactly the quantity resting there, with a limit
/// that crosses `p`, makes one trade with each order of the level, oldest
/// first, each for the order's whole quantity at price `p`; afterwards both
/// sides of the book are empty.
pub proof fn lemma_matching_single_level(
    book: &OrderBook,
    request: OrderRequest,
    p: Price,
    level: Seq<Order>,
)
    requires
        book.wf(),
        book.levels_on(request.side) == Map::<Price, Seq<Order>>::empty(),
        book.levels_on(opposite(request.side)) == Map::<Price, Seq<Order>>::empty().insert(
            p,
            level,
        ),
        crosses(request.side, p, request.price),
        request.quantity == queue_volume(level),
    ensures
        ({
            let o = book.after_matching(request);
            &&& o.fills.len() == level.len()
            &&& forall|i: int| 0 <= i < level.len() ==> {
                &&& (#[trigger] o.fills[i]).taker_order_id == OrderId(book.order_id_counter)
                &&& o.fills[i].maker_order_id == level[i].id
                &&& o.fills[i].maker_arrival_seq == level[i].arrival_seq
                &&& o.fills[i].quantity == level[i].quantity
                &&& o.fills[i].price == p
            }
            &&& o.bids == Map::<Price, Seq<Order>>::empty()
            &&& o.asks == Map::<Price, Seq<Order>>::empty()
        }),
{
    let other = book.levels_on(opposite(request.side));
    assert(other.contains_key(p));
    assert forall|i: int| 0 <= i < level.len() implies (#[trigger] level[i]).quantity > 0 by {}
    let taker = book.next_order(request.price, request.quantity);
    lemma_sweep_single_level(level, p, request.side, taker.id, taker.price);
}

/// Two best prices of one side are the same price.
proof fn lemma_best_price_unique(levels: Levels, side: Side, p: Price)
    requires
        is_best_price(levels, side, p),
    ensures
        best_price(levels, side) == p,
{
    assert(is_best_price(levels, side, best_price(levels, side)));
}

/// Whom an incoming order trades with: listing the orders resting on the other
/// side as it meets them (best price first, oldest first within a price), the
/// i-th trade is with the i-th order of that list, at that order's price. Every
/// trade but the last takes the whole of its order; the last takes at most
/// all of it.
pub proof fn lemma_sweep_follows_priority(
    levels: Levels,
    taker_side: Side,
    taker: OrderId,
    limit: Price,
    qty: nat,
)
    requires
        wf_levels(levels),
        levels.dom().finite(),
    ensures
        ({
            let s = sweep(levels, taker_side, taker, limit, qty);
            let queue = priority_order(levels, opposite(taker_side));
            &&& s.fills.len() <= queue.len()
            &&& forall|i: int| 0 <= i < s.fills.len() ==> {
                &&& (#[trigger] s.fills[i]).maker_order_id == queue[i].id
                &&& s.fills[i].maker_arrival_seq == queue[i].arrival_seq
                &&& s.fills[i].price == queue[i].price
                &&& s.fills[i].quantity <= queue[i].quantity
                &&& i + 1 < s.fills.len() ==> s.fills[i].quantity == queue[i].quantity
            }
        }),
    decreases qty,
{
    let side = opposite(taker_side);
    if qty == 0 || levels.dom().is_empty() {
    } else {
        lemma_best_price_exists(levels, side);
        let p = best_price(levels, side);
        let level = levels[p];
        let maker = level[0];
        let q = traded_quantity(maker, qty);
        let queue = priority_order(levels, side);
        let rest = priority_order(levels.remove(p), side);
        assert(queue == level + rest);
        if crosses(taker_side, p, limit) && q > 0 {
            let after = after_front_trade(level, q);
            let next = set_level(levels, p, after);
            lemma_front_trade_keeps_wf(levels, p, q);
            assert(next.dom().finite()) by {
                assert(next.dom() =~= levels.dom().remove(p) || next.dom() =~= levels.dom());
            }
            lemma_sweep_follows_priority(next, taker_side, taker, limit, (qty - q) as nat);
            let s = sweep(levels, taker_side, taker, limit, qty);
            let s1 = sweep(next, taker_side, taker, limit, (qty - q) as nat);
            assert(s.fills == seq![s.fills[0]] + s1.fills);
            if q == maker.quantity {
                // the front order is used up: the list goes on with the next one
                if after.len() == 0 {
                    assert(next =~= levels.remove(p));
                } else {
                    assert(is_best_price(next, side, p));
                    lemma_best_price_unique(next, side, p);
                    assert(next.remove(p) =~= levels.remove(p));
                    assert(next.dom().len() > 0);
                    assert(priority_order(next, side) == after + rest);
                }
                assert(priority_order(next, side) =~= queue.drop_first());
                assert forall|i: int| 0 < i < s.fills.len() implies s.fills[i]
                    == s1.fills[i - 1] && queue[i] == priority_order(next, side)[i - 1] by {}
            } else {
                // the incoming order is used up: this was its only trade
                assert(s1.fills.len() == 0);
            }
        }
    }
}

/// Whom a matched order trades with: listing the orders resting on the other
/// side of the book as the incoming order meets them (best price first,
/// oldest first within a price), the i-th trade is with the i-th order of
/// that list, at that order's price; every trade but the last takes the whole
/// of its order, and the last at most all of it.
pub proof fn lemma_matching_follows_priority(book: &OrderBook, request: OrderRequest)
    requires
        book.wf(),
    ensures
        ({
            let o = book.after_matching(request);
            let queue = priority_order(
                book.levels_on(opposite(request.side)),
                opposite(request.side),
            );
            &&& o.fills.len() <= queue.len()
            &&& forall|i: int| 0 <= i < o.fills.len() ==> {
                &&& (#[trigger] o.fills[i]).maker_order_id == queue[i].id
                &&& o.fills[i].maker_arrival_seq == queue[i].arrival_seq
                &&& o.fills[i].price == queue[i].price
                &&& o.fills[i].quantity <= queue[i].quantity
                &&& i + 1 < o.fills.len() ==> o.fills[i].quantity == queue[i].quantity
            }
        }),
{
    lemma_sides_finite(book);
    let taker = book.next_order(request.price, request.quantity);
    let other = book.levels_on(opposite(request.side));
    lemma_sweep_follows_priority(other, request.side, taker.id, taker.price, taker.quantity as nat);
}

/// A cancel finds every resting order: it answers `None` exactly when no order
/// resting on either side has the id asked for, and otherwise hands back an
/// order with that id that was resting on the book.
pub proof fn lemma_cancel_finds_resting_order(
    book: &OrderBook,
    id: OrderId,
    after: &OrderBook,
    cancelled: Option<Order>,
)
    requires
        book.cancels_into(id, *after, cancelled),
    ensures
        cancelled is None <==> !holds_order(book.bid_levels(), id) && !holds_order(
            book.ask_levels(),
            id,
        ),
        cancelled matches Some(order) ==> order.id == id && (holds_order(book.bid_levels(), id)
            || holds_order(book.ask_levels(), id)),
{
    if let Some(order) = cancelled {
        let levels = if holds_order(book.bid_levels(), id) {
            book.bid_levels()
        } else {
            book.ask_levels()
        };
        let (p, i) = choose|p: Price, i: int|
            #![trigger levels[p][i]]
            levels.contains_key(p) && 0 <= i < levels[p].len() && levels[p][i] == order
                && remove_order_at(levels, p, i) == if holds_order(book.bid_levels(), id) {
                after.bid_levels()
            } else {
                after.ask_levels()
            };
        assert(levels[p][i].id == id);
    }
}

} // verus!
