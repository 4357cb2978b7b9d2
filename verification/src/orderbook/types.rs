use std::collections::BTreeMap;
use std::time::SystemTime;
use vstd::prelude::*;

verus! {

pub type Price = u64;

pub type Quantity = u64;

pub type ArrivalSeq = u64;

/// Identifier of an order, handed out by the book in increasing order.
#[derive(Debug, Clone, Copy, PartialEq, Eq, Hash, Structural)]
pub struct OrderId(pub u64);

/// Which side of the book an order belongs to: bids buy, asks sell.
#[derive(Debug, Clone, Copy, PartialEq, Eq, Structural)]
pub enum Side {
    Bid,
    Ask,
}

/// An order as it rests in the book.
#[derive(Debug, Clone, Copy, PartialEq, Eq, Structural)]
pub struct Order {
    pub id: OrderId,
    pub price: Price,
    pub quantity: Quantity,
    pub arrival_seq: ArrivalSeq,
}

/// What a client asks the book to do: buy or sell a quantity at a limit price.
#[derive(Debug, Clone, Copy, PartialEq, Eq, Structural)]
pub struct OrderRequest {
    pub side: Side,
    pub price: Price,
    pub quantity: Quantity,
}

#[verifier::external_type_specification]
#[verifier::external_body]
pub struct ExSystemTime(SystemTime);

/// One execution between an incoming (taker) order and a resting (maker) order.
#[derive(Debug, Clone, Copy)]
pub struct Trade {
    pub taker_order_id: OrderId,
    pub maker_order_id: OrderId,
    pub maker_arrival_seq: u64,
    pub price: Price,
    pub quantity: Quantity,
    pub timestamp: SystemTime,
}

pub type Trades = Vec<Trade>;

/// A limit order book. Each side maps a price to the queue of orders resting
/// at that price, oldest first.
pub struct OrderBook {
    pub next_seq: ArrivalSeq,
    pub order_id_counter: u64,
    pub bids: BTreeMap<Price, Vec<Order>>,
    pub asks: BTreeMap<Price, Vec<Order>>,
}

} // verus!
