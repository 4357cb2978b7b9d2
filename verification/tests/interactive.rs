use ferrum_match::modes::interactive::{interactive_mode, parse_command_or_error, Command};
use ferrum_match::orderbook::types::OrderBook;
use std::collections::BTreeMap;

fn empty_orderbook() -> OrderBook {
    OrderBook {
        next_seq: 0,
        order_id_counter: 1,
        bids: BTreeMap::new(),
        asks: BTreeMap::new(),
    }
}

#[test]
fn parse_print() {
    assert!(matches!(
        parse_command_or_error("print".to_string()),
        Ok(Command::Print)
    ));
}

#[test]
fn parse_exit() {
    assert!(matches!(
        parse_command_or_error("exit".to_string()),
        Ok(Command::Exit)
    ));
}

#[test]
fn parse_buy() {
    let cmd = parse_command_or_error("buy 10 5".to_string()).unwrap();
    assert!(matches!(cmd, Command::Buy { price: 10, qty: 5 }));
}

#[test]
fn parse_sell() {
    let cmd = parse_command_or_error("sell 99 1".to_string()).unwrap();
    assert!(matches!(cmd, Command::Sell { price: 99, qty: 1 }));
}

#[test]
fn parse_trims_whitespace() {
    let cmd = parse_command_or_error("  buy  7  3  ".to_string()).unwrap();
    assert!(matches!(cmd, Command::Buy { price: 7, qty: 3 }));
}

#[test]
fn parse_invalid_price() {
    assert_eq!(
        parse_command_or_error("buy x 1".to_string()),
        Err("Invalid price".to_string())
    );
}

#[test]
fn parse_invalid_quantity() {
    assert_eq!(
        parse_command_or_error("sell 1 y".to_string()),
        Err("Invalid quantity".to_string())
    );
}

#[test]
fn parse_zero_price() {
    assert_eq!(
        parse_command_or_error("buy 0 1".to_string()),
        Err("Price and quantity must be > 0".to_string())
    );
}

#[test]
fn parse_zero_quantity() {
    assert_eq!(
        parse_command_or_error("sell 1 0".to_string()),
        Err("Price and quantity must be > 0".to_string())
    );
}

#[test]
fn parse_invalid_side() {
    assert_eq!(
        parse_command_or_error("hold 1 1".to_string()),
        Err("Invalid side: use BUY or SELL".to_string())
    );
}

#[test]
fn parse_wrong_arity() {
    assert_eq!(
        parse_command_or_error("buy 1".to_string()),
        Err("Parsing failed".to_string())
    );
}

#[test]
fn parse_empty_input() {
    assert_eq!(
        parse_command_or_error("".to_string()),
        Err("Parsing failed".to_string())
    );
}

#[test]
fn parse_gibberish() {
    assert_eq!(
        parse_command_or_error("hello world".to_string()),
        Err("Parsing failed".to_string())
    );
}

#[test]
fn interactive_exit_breaks() {
    let mut ob = empty_orderbook();
    let flow = interactive_mode(&mut ob, "exit");
    assert!(flow.is_break());
}

#[test]
fn interactive_invalid_returns_continue() {
    let mut ob = empty_orderbook();
    let flow = interactive_mode(&mut ob, "not-a-command");
    assert!(flow.is_continue());
}

#[test]
fn interactive_buy_resting_on_book() {
    let mut ob = empty_orderbook();
    let flow = interactive_mode(&mut ob, "buy 100 3");
    assert!(flow.is_continue());
    let level = ob.bids.get(&100).expect("bid level");
    assert_eq!(level.len(), 1);
    assert_eq!(level[0].quantity, 3);
}

#[test]
fn interactive_sell_resting_on_book() {
    let mut ob = empty_orderbook();
    let flow = interactive_mode(&mut ob, "sell 50 2");
    assert!(flow.is_continue());
    let level = ob.asks.get(&50).expect("ask level");
    assert_eq!(level.len(), 1);
    assert_eq!(level[0].quantity, 2);
}

#[test]
fn interactive_case_insensitive_side() {
    let mut ob = empty_orderbook();
    assert!(interactive_mode(&mut ob, "BUY 10 1").is_continue());
    assert!(ob.bids.contains_key(&10));
}
