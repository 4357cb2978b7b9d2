//! The one-shot commands of the command line: reading their arguments.

use crate::modes::interactive::{parse_price, parse_quantity, price_of, quantity_of, same_text};
use crate::modes::text::{lowercase, to_lowercase};
use crate::orderbook::types::{OrderRequest, Side};
use vstd::prelude::*;

verus! {

/// The side that a (lowercase) word names: `buy` a bid, `sell` an ask.
pub open spec fn side_of(side: Seq<char>) -> Result<Side, Seq<char>> {
    if side == "buy"@ {
        Ok(Side::Bid)
    } else if side == "sell"@ {
        Ok(Side::Ask)
    } else {
        Err("Invalid side: use BUY or SELL"@)
    }
}

/// Reads the side argument of the `add` command.
pub fn parse_side(side: String) -> (r: Result<Side, String>)
    ensures
        match r {
            Ok(s) => side_of(side@) == Ok::<Side, Seq<char>>(s),
            Err(e) => side_of(side@) == Err::<Side, Seq<char>>(e@),
        },
{
    if same_text(side.as_str(), "buy") {
        Ok(Side::Bid)
    } else if same_text(side.as_str(), "sell") {
        Ok(Side::Ask)
    } else {
        Err("Invalid side: use BUY or SELL".to_string())
    }
}

/// The request that the arguments of the `add` command make: a price or a
/// quantity that is no `u64` counts as 0, and the side is read in any case of
/// letters. An unknown side is an error.
pub fn request_from_args(side: &str, price: &str, quantity: &str) -> (r: Result<
    OrderRequest,
    String,
>)
    ensures
        ({
            let p = match price_of(price@) { Ok(v) => v, Err(_) => 0u64 };
            let q = match quantity_of(quantity@) { Ok(v) => v, Err(_) => 0u64 };
            match side_of(lowercase(side@)) {
                Ok(s) => r == Ok::<OrderRequest, String>(
                    OrderRequest { side: s, price: p, quantity: q },
                ),
                Err(e) => r matches Err(m) && m@ == e,
            }
        }),
{
    let p = match parse_price(&price) {
        Ok(v) => v,
        Err(_) => 0,
    };
    let q = match parse_quantity(&quantity) {
        Ok(v) => v,
        Err(_) => 0,
    };
    match parse_side(to_lowercase(side)) {
        Ok(s) => Ok(OrderRequest { side: s, price: p, quantity: q }),
        Err(e) => Err(e),
    }
}

} // verus!
