use ferrum_match::orderbook::types::{Order, OrderBook, OrderId, Side, Trade};

fn volume(book: &OrderBook) -> u64 {
    book.bids
        .values()
        .chain(book.asks.values())
        .flatten()
        .map(|o| o.quantity)
        .sum()
}

fn traded(trades: &[Trade]) -> u64 {
    trades.iter().map(|t| t.quantity).sum()
}

fn best_bid(book: &OrderBook) -> Option<u64> {
    book.bids.keys().next_back().copied()
}

fn best_ask(book: &OrderBook) -> Option<u64> {
    book.asks.keys().next().copied()
}

#[test]
fn new_book_is_empty_and_numbers_from_one() {
    let book = OrderBook::new();
    assert_eq!(book.next_seq, 0);
    assert_eq!(book.order_id_counter, 1);
    assert!(book.bids.is_empty());
    assert!(book.asks.is_empty());
}

#[test]
fn next_order_id_counts_up() {
    let mut book = OrderBook::new();
    assert_eq!(book.next_order_id(), OrderId(1));
    assert_eq!(book.next_order_id(), OrderId(2));
    assert_eq!(book.order_id_counter, 3);
    assert_eq!(book.next_seq, 0);
}

#[test]
fn make_order_numbers_the_order() {
    let mut book = OrderBook::new();
    let a = book.make_order(10, 3);
    let b = book.make_order(11, 4);
    assert_eq!(a, Order { id: OrderId(1), price: 10, quantity: 3, arrival_seq: 0 });
    assert_eq!(b, Order { id: OrderId(2), price: 11, quantity: 4, arrival_seq: 1 });
    assert!(book.bids.is_empty() && book.asks.is_empty());
}

#[test]
fn make_order_request_keeps_its_fields() {
    let r = OrderBook::make_order_request(7, 8, Side::Ask);
    assert_eq!(r.price, 7);
    assert_eq!(r.quantity, 8);
    assert_eq!(r.side, Side::Ask);
}

#[test]
fn make_trade_keeps_its_fields() {
    let now = std::time::SystemTime::UNIX_EPOCH;
    let t = OrderBook::make_trade(OrderId(5), OrderId(2), 9, 100, 3, now);
    assert_eq!(t.taker_order_id, OrderId(5));
    assert_eq!(t.maker_order_id, OrderId(2));
    assert_eq!(t.maker_arrival_seq, 9);
    assert_eq!(t.price, 100);
    assert_eq!(t.quantity, 3);
    assert_eq!(t.timestamp, now);
}

#[test]
fn zero_quantity_add_changes_nothing() {
    let mut book = OrderBook::new();
    book.add_order_external(50, 0, Side::Bid);
    assert!(book.bids.is_empty());
    assert_eq!(book.order_id_counter, 1);
    assert_eq!(book.next_seq, 0);
}

#[test]
fn add_order_internal_queues_at_the_back_and_drops_empty_orders() {
    let mut book = OrderBook::new();
    let first = Order { id: OrderId(7), price: 20, quantity: 1, arrival_seq: 3 };
    let second = Order { id: OrderId(8), price: 20, quantity: 2, arrival_seq: 4 };
    let empty = Order { id: OrderId(9), price: 20, quantity: 0, arrival_seq: 5 };
    book.add_order_internal(first, Side::Ask);
    book.add_order_internal(second, Side::Ask);
    book.add_order_internal(empty, Side::Ask);
    assert_eq!(book.asks.get(&20).unwrap(), &vec![first, second]);
    assert!(book.bids.is_empty());
    assert_eq!(book.order_id_counter, 1);
}

#[test]
fn matching_conserves_volume() {
    let mut book = OrderBook::new();
    book.add_order_external(100, 7, Side::Ask);
    book.add_order_external(101, 4, Side::Ask);
    book.add_order_external(90, 6, Side::Bid);
    let before = volume(&book);
    let trades = book.matching_order(OrderBook::make_order_request(100, 10, Side::Bid));
    assert_eq!(traded(&trades), 7);
    assert_eq!(volume(&book) + 2 * traded(&trades), before + 10);
}

#[test]
fn one_level_is_traded_in_arrival_order() {
    let mut book = OrderBook::new();
    for qty in [5u64, 1, 7, 2, 9] {
        book.add_order_external(100, qty, Side::Ask);
    }
    let trades = book.matching_order(OrderBook::make_order_request(100, 24, Side::Bid));
    assert_eq!(trades.len(), 5);
    for pair in trades.windows(2) {
        assert!(pair[0].maker_arrival_seq < pair[1].maker_arrival_seq);
    }
}

#[test]
fn best_price_is_traded_first() {
    let mut book = OrderBook::new();
    book.add_order_external(103, 1, Side::Ask);
    book.add_order_external(101, 1, Side::Ask);
    book.add_order_external(102, 1, Side::Ask);
    let trades = book.matching_order(OrderBook::make_order_request(110, 3, Side::Bid));
    let prices: Vec<u64> = trades.iter().map(|t| t.price).collect();
    assert_eq!(prices, vec![101, 102, 103]);

    let mut book = OrderBook::new();
    book.add_order_external(97, 1, Side::Bid);
    book.add_order_external(99, 1, Side::Bid);
    book.add_order_external(98, 1, Side::Bid);
    let trades = book.matching_order(OrderBook::make_order_request(90, 3, Side::Ask));
    let prices: Vec<u64> = trades.iter().map(|t| t.price).collect();
    assert_eq!(prices, vec![99, 98, 97]);
}

#[test]
fn trades_respect_the_limit() {
    let mut book = OrderBook::new();
    book.add_order_external(100, 5, Side::Ask);
    book.add_order_external(106, 5, Side::Ask);
    let trades = book.matching_order(OrderBook::make_order_request(105, 20, Side::Bid));
    assert!(trades.iter().all(|t| t.price <= 105));
    assert!(trades.iter().all(|t| t.taker_order_id == OrderId(3)));
}

#[test]
fn matching_keeps_the_book_uncrossed() {
    let mut book = OrderBook::new();
    book.matching_order(OrderBook::make_order_request(99, 5, Side::Bid));
    book.matching_order(OrderBook::make_order_request(101, 5, Side::Ask));
    book.matching_order(OrderBook::make_order_request(102, 8, Side::Bid));
    assert!(best_bid(&book).unwrap() < best_ask(&book).unwrap_or(u64::MAX));
    assert_eq!(best_bid(&book), Some(102));
    assert_eq!(book.bids.get(&102).unwrap()[0].quantity, 3);
    book.matching_order(OrderBook::make_order_request(90, 20, Side::Ask));
    assert!(book.bids.is_empty());
    assert_eq!(best_ask(&book), Some(90));
    assert_eq!(book.asks.get(&90).unwrap()[0].quantity, 12);
}

#[test]
fn cancel_takes_the_order_off_the_book() {
    let mut book = OrderBook::new();
    book.add_order_external(100, 5, Side::Bid);
    book.add_order_external(100, 6, Side::Bid);
    book.add_order_external(105, 7, Side::Ask);
    let cancelled = book.cancel_order(OrderId(1));
    assert_eq!(cancelled, Some(Order { id: OrderId(1), price: 100, quantity: 5, arrival_seq: 0 }));
    assert_eq!(book.bids.get(&100).unwrap().len(), 1);
    assert_eq!(book.bids.get(&100).unwrap()[0].id, OrderId(2));
    let cancelled = book.cancel_order(OrderId(3));
    assert_eq!(cancelled.map(|o| o.quantity), Some(7));
    assert!(book.asks.is_empty());
    assert_eq!(book.order_id_counter, 4);
}

#[test]
fn cancel_of_an_unknown_id_changes_nothing() {
    let mut book = OrderBook::new();
    book.add_order_external(100, 5, Side::Bid);
    assert_eq!(book.cancel_order(OrderId(42)), None);
    assert_eq!(book.bids.get(&100).unwrap().len(), 1);
    assert_eq!(volume(&book), 5);
}

#[test]
fn cancelled_orders_no_longer_trade() {
    let mut book = OrderBook::new();
    book.add_order_external(100, 5, Side::Ask);
    book.add_order_external(100, 5, Side::Ask);
    book.cancel_order(OrderId(1));
    let trades = book.matching_order(OrderBook::make_order_request(100, 5, Side::Bid));
    assert_eq!(trades.len(), 1);
    assert_eq!(trades[0].maker_order_id, OrderId(2));
    assert!(book.asks.is_empty() && book.bids.is_empty());
}

#[test]
fn partial_fill_keeps_the_makers_place_in_the_queue() {
    let mut book = OrderBook::new();
    book.add_order_external(100, 5, Side::Ask);
    book.add_order_external(100, 5, Side::Ask);
    book.matching_order(OrderBook::make_order_request(100, 3, Side::Bid));
    let level = book.asks.get(&100).unwrap();
    assert_eq!(level[0].id, OrderId(1));
    assert_eq!(level[0].quantity, 2);
    assert_eq!(level[1].id, OrderId(2));
}

#[test]
fn cancel_undoes_add() {
    let mut book = OrderBook::new();
    book.add_order_external(100, 5, Side::Bid);
    book.add_order_external(104, 2, Side::Ask);
    let bids = book.bids.clone();
    let asks = book.asks.clone();
    book.add_order_external(100, 9, Side::Bid);
    book.add_order_external(101, 9, Side::Ask);
    assert_eq!(
        book.cancel_order(OrderId(4)),
        Some(Order { id: OrderId(4), price: 101, quantity: 9, arrival_seq: 3 })
    );
    assert_eq!(
        book.cancel_order(OrderId(3)),
        Some(Order { id: OrderId(3), price: 100, quantity: 9, arrival_seq: 2 })
    );
    assert_eq!(book.bids, bids);
    assert_eq!(book.asks, asks);
}

fn resting_ids(book: &OrderBook) -> Vec<u64> {
    book.bids
        .values()
        .chain(book.asks.values())
        .flatten()
        .map(|o| o.id.0)
        .collect()
}

fn ids_are_distinct(book: &OrderBook) -> bool {
    let mut ids = resting_ids(book);
    let n = ids.len();
    ids.sort();
    ids.dedup();
    ids.len() == n
}

#[test]
fn single_level_is_traded_whole_order_by_order() {
    let mut book = OrderBook::new();
    let quantities = [7u64, 3, 12, 1];
    for qty in quantities {
        book.add_order_external(100, qty, Side::Ask);
    }
    let trades = book.matching_order(OrderBook::make_order_request(100, 23, Side::Bid));
    assert_eq!(trades.len(), 4);
    for (i, t) in trades.iter().enumerate() {
        assert_eq!(t.taker_order_id, OrderId(5));
        assert_eq!(t.maker_order_id, OrderId(i as u64 + 1));
        assert_eq!(t.maker_arrival_seq, i as u64);
        assert_eq!(t.quantity, quantities[i]);
        assert_eq!(t.price, 100);
    }
    assert!(book.bids.is_empty());
    assert!(book.asks.is_empty());
}

#[test]
fn single_bid_level_is_traded_whole_by_a_lower_sell() {
    let mut book = OrderBook::new();
    book.add_order_external(70, 4, Side::Bid);
    book.add_order_external(70, 9, Side::Bid);
    let trades = book.matching_order(OrderBook::make_order_request(65, 13, Side::Ask));
    assert_eq!(trades.len(), 2);
    assert_eq!((trades[0].maker_order_id, trades[0].quantity, trades[0].price), (OrderId(1), 4, 70));
    assert_eq!((trades[1].maker_order_id, trades[1].quantity, trades[1].price), (OrderId(2), 9, 70));
    assert!(trades.iter().all(|t| t.taker_order_id == OrderId(3)));
    assert!(book.bids.is_empty());
    assert!(book.asks.is_empty());
}

#[test]
fn resting_ids_stay_distinct_through_adds_matches_and_cancels() {
    let mut book = OrderBook::new();
    book.add_order_external(100, 5, Side::Bid);
    book.add_order_external(100, 6, Side::Bid);
    book.add_order_external(103, 2, Side::Ask);
    assert!(ids_are_distinct(&book));
    book.matching_order(OrderBook::make_order_request(99, 8, Side::Ask));
    assert!(ids_are_distinct(&book));
    book.matching_order(OrderBook::make_order_request(104, 10, Side::Bid));
    assert!(ids_are_distinct(&book));
    book.matching_order(OrderBook::make_order_request(101, 4, Side::Ask));
    assert!(ids_are_distinct(&book));
    assert!(book.cancel_order(OrderId(2)).is_some());
    assert!(ids_are_distinct(&book));
    book.add_order_external(101, 3, Side::Ask);
    assert!(ids_are_distinct(&book));
    let ids = resting_ids(&book);
    assert!(ids.iter().all(|&id| id < book.order_id_counter));
    assert!(!ids.is_empty());
}
