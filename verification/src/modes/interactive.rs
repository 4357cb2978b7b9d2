//! The command language of the interactive prompt, and what each command does
//! to the book.

use super::text::{
    all_white_space, chars_of, lemma_words_ignore_surrounding_white_space, lowercase, parse_u64,
    spans_view, to_lowercase, u64_from_decimal, word_spans, words,
};
use crate::orderbook::model::trade_views;
use crate::orderbook::types::{Order, OrderBook, OrderId, OrderRequest, Side, Trades};
use vstd::prelude::*;

verus! {

/// A command of the prompt.
#[derive(Debug, PartialEq, Eq)]
pub enum Command {
    Buy { price: u64, qty: u64 },
    Sell { price: u64, qty: u64 },
    Cancel { id: u64 },
    Print,
    Exit,
}

/// A result whose error is text, with the text seen as characters.
pub open spec fn text_result<T>(r: Result<T, String>) -> Result<T, Seq<char>> {
    match r {
        Ok(v) => Ok(v),
        Err(e) => Err(e@),
    }
}

/// A price as the prompt reads it.
pub open spec fn price_of(s: Seq<char>) -> Result<u64, Seq<char>> {
    match u64_from_decimal(s) {
        Some(v) => Ok(v),
        None => Err("Invalid price"@),
    }
}

/// A quantity as the prompt reads it.
pub open spec fn quantity_of(s: Seq<char>) -> Result<u64, Seq<char>> {
    match u64_from_decimal(s) {
        Some(v) => Ok(v),
        None => Err("Invalid quantity"@),
    }
}

/// An order id as the prompt reads it.
pub open spec fn id_of(s: Seq<char>) -> Result<u64, Seq<char>> {
    match u64_from_decimal(s) {
        Some(v) => Ok(v),
        None => Err("Invalid id"@),
    }
}

/// The order command that the word `side` names, at price `p` for quantity `q`.
pub open spec fn side_command(side: Seq<char>, p: u64, q: u64) -> Result<Command, Seq<char>> {
    if side == "buy"@ {
        Ok(Command::Buy { price: p, qty: q })
    } else if side == "sell"@ {
        Ok(Command::Sell { price: p, qty: q })
    } else {
        Err("Invalid side: use BUY or SELL"@)
    }
}

/// The command that the line `input` writes, or the message that rejects it.
/// One word: `print` or `exit`. Three words: a side, a price and a quantity,
/// read in that order of checks, both numbers above zero. Two words: `delete`
/// and an order id.
pub open spec fn command_of(input: Seq<char>) -> Result<Command, Seq<char>> {
    let w = words(input);
    if w.len() == 1 && w[0] == "print"@ {
        Ok(Command::Print)
    } else if w.len() == 3 {
        match price_of(w[1]) {
            Err(e) => Err(e),
            Ok(p) => match quantity_of(w[2]) {
                Err(e) => Err(e),
                Ok(q) => if p == 0 || q == 0 {
                    Err("Price and quantity must be > 0"@)
                } else {
                    side_command(w[0], p, q)
                },
            },
        }
    } else if w.len() == 2 && w[0] == "delete"@ {
        Ok(Command::Cancel { id: u64_from_decimal(w[1]).unwrap() })
    } else if w.len() == 1 && w[0] == "exit"@ {
        Ok(Command::Exit)
    } else {
        Err("Parsing failed"@)
    }
}

/// The line is `delete` followed by a word that is no order id: the one
/// input on which reading a command fails without a message.
pub open spec fn deletes_unreadable_id(input: Seq<char>) -> bool {
    let w = words(input);
    w.len() == 2 && w[0] == "delete"@ && u64_from_decimal(w[1]) is None
}

/// A line reads as the same command, or is rejected with the same message,
/// whatever white space surrounds it.
pub proof fn lemma_command_ignores_surrounding_white_space(
    pre: Seq<char>,
    line: Seq<char>,
    post: Seq<char>,
)
    requires
        all_white_space(pre),
        all_white_space(post),
    ensures
        command_of(pre + line + post) == command_of(line),
        deletes_unreadable_id(pre + line + post) == deletes_unreadable_id(line),
{
    lemma_words_ignore_surrounding_white_space(pre, line, post);
}

/// How many words each command takes. A line reads as `print` or `exit` only
/// when it is that one word; as a cancel only when it is `delete` and an order
/// id; as an order only when it is exactly three words: a side, then a price
/// and a quantity, both above zero. A line of no words, or of more than three
/// words, is rejected as unparsable.
pub proof fn lemma_command_word_counts(input: Seq<char>)
    ensures
        ({
            let w = words(input);
            let c = command_of(input);
            &&& w.len() == 0 || w.len() > 3 ==> c == Err::<Command, Seq<char>>("Parsing failed"@)
            &&& c matches Ok(Command::Print) ==> w.len() == 1 && w[0] == "print"@
            &&& c matches Ok(Command::Exit) ==> w.len() == 1 && w[0] == "exit"@
            &&& c matches Ok(Command::Buy { price, qty }) ==> {
                &&& w.len() == 3
                &&& w[0] == "buy"@
                &&& u64_from_decimal(w[1]) == Some(price)
                &&& u64_from_decimal(w[2]) == Some(qty)
                &&& price > 0
                &&& qty > 0
            }
            &&& c matches Ok(Command::Sell { price, qty }) ==> {
                &&& w.len() == 3
                &&& w[0] == "sell"@
                &&& u64_from_decimal(w[1]) == Some(price)
                &&& u64_from_decimal(w[2]) == Some(qty)
                &&& price > 0
                &&& qty > 0
            }
            &&& !deletes_unreadable_id(input) ==> (c matches Ok(Command::Cancel { id }) ==> {
                &&& w.len() == 2
                &&& w[0] == "delete"@
                &&& u64_from_decimal(w[1]) == Some(id)
            })
        }),
{
}

/// Whether two strings hold the same characters.
pub(crate) fn same_text(a: &str, b: &str) -> (same: bool)
    ensures
        same == (a@ == b@),
{
    let x = chars_of(a);
    let y = chars_of(b);
    if x.len() != y.len() {
        return false;
    }
    let mut i: usize = 0;
    while i < x.len()
        invariant
            i <= x.len(),
            x.len() == y.len(),
            x@ == a@,
            y@ == b@,
            forall|j: int| 0 <= j < i ==> x@[j] == y@[j],
        decreases x.len() - i,
    {
        if x[i] != y[i] {
            return false;
        }
        i += 1;
    }
    assert(x@ =~= y@);
    true
}

/// Reads a quantity; `Invalid quantity` when the text is no `u64`.
pub fn parse_quantity(qty: &&str) -> (r: Result<u64, String>)
    ensures
        text_result(r) == quantity_of(qty@),
{
    match parse_u64(*qty) {
        Some(q) => Ok(q),
        None => Err("Invalid quantity".to_string()),
    }
}

/// Reads a price; `Invalid price` when the text is no `u64`.
pub fn parse_price(price: &&str) -> (r: Result<u64, String>)
    ensures
        text_result(r) == price_of(price@),
{
    match parse_u64(*price) {
        Some(p) => Ok(p),
        None => Err("Invalid price".to_string()),
    }
}

/// Reads an order id; `Invalid id` when the text is no `u64`.
pub fn parse_id(id: &&str) -> (r: Result<u64, String>)
    ensures
        text_result(r) == id_of(id@),
{
    match parse_u64(*id) {
        Some(i) => Ok(i),
        None => Err("Invalid id".to_string()),
    }
}

/// The order command that the word `side` names.
pub fn parse_side(side: &&str, p: u64, q: u64) -> (r: Result<Command, String>)
    ensures
        text_result(r) == side_command(side@, p, q),
{
    if same_text(*side, "buy") {
        Ok(Command::Buy { price: p, qty: q })
    } else if same_text(*side, "sell") {
        Ok(Command::Sell { price: p, qty: q })
    } else {
        Err("Invalid side: use BUY or SELL".to_string())
    }
}

/// The `k`-th word of `input`, whose characters are `chars` and whose words
/// `spans` marks.
fn word_at<'a>(
    input: &'a str,
    chars: &Vec<char>,
    spans: &Vec<(usize, usize)>,
    k: usize,
) -> (w: &'a str)
    requires
        chars@ == input@,
        k < spans.len(),
        spans_view(chars@, spans@) == words(input@),
        forall|j: int| 0 <= j < spans.len() ==> (#[trigger] spans[j]).0 < spans[j].1 <= chars.len(),
    ensures
        w@ == words(input@)[k as int],
{
    let (start, end) = spans[k];
    input.substring_char(start, end)
}

/// Reads a line of the prompt: the command it writes, or the message that
/// rejects it. A line `delete` followed by a word that is no order id is left
/// out: reading it fails without a message.
pub fn parse_command_or_error(input: String) -> (r: Result<Command, String>)
    requires
        !deletes_unreadable_id(input@),
    ensures
        text_result(r) == command_of(input@),
        words(input@).len() == 0 || words(input@).len() > 3 ==> text_result(r) == Err::<
            Command,
            Seq<char>,
        >("Parsing failed"@),
        places_order(text_result(r)) ==> words(input@).len() == 3,
{
    proof {
        lemma_command_word_counts(input@);
    }
    let line = input.as_str();
    let chars = chars_of(line);
    let spans = word_spans(&chars);
    let n = spans.len();
    if n == 1 && same_text(word_at(line, &chars, &spans, 0), "print") {
        return Ok(Command::Print);
    }
    if n == 3 {
        let side = word_at(line, &chars, &spans, 0);
        let price = word_at(line, &chars, &spans, 1);
        let qty = word_at(line, &chars, &spans, 2);
        let p = match parse_price(&price) {
            Ok(p) => p,
            Err(e) => return Err(e),
        };
        let q = match parse_quantity(&qty) {
            Ok(q) => q,
            Err(e) => return Err(e),
        };
        if p == 0 || q == 0 {
            return Err("Price and quantity must be > 0".to_string());
        }
        return parse_side(&side, p, q);
    }
    if n == 2 && same_text(word_at(line, &chars, &spans, 0), "delete") {
        let id = word_at(line, &chars, &spans, 1);
        return Ok(Command::Cancel { id: parse_id(&id).unwrap() });
    }
    if n == 1 && same_text(word_at(line, &chars, &spans, 0), "exit") {
        return Ok(Command::Exit);
    }
    Err("Parsing failed".to_string())
}

/// Whether the line is `delete` followed by a word that is no order id.
pub fn has_unreadable_delete_id(input: &str) -> (b: bool)
    ensures
        b == deletes_unreadable_id(input@),
{
    let chars = chars_of(input);
    let spans = word_spans(&chars);
    if spans.len() == 2 && same_text(word_at(input, &chars, &spans, 0), "delete") {
        parse_u64(word_at(input, &chars, &spans, 1)).is_none()
    } else {
        false
    }
}

/// What the prompt answers to a line, and what the caller shows the user.
pub enum Reply {
    /// Show the book.
    ShowBook,
    /// An order was matched; these are its trades.
    Traded(Trades),
    /// A cancel request for order `id`, and the order taken off the book, if any.
    Cancel { id: u64, cancelled: Option<Order> },
    /// Leave the prompt.
    Exit,
    /// The line was rejected with this message.
    Rejected(String),
}

impl Reply {
    /// The prompt ends after this answer.
    pub fn is_break(&self) -> (b: bool)
        ensures
            b == (*self is Exit),
    {
        match self {
            Reply::Exit => true,
            _ => false,
        }
    }

    /// The prompt goes on after this answer.
    pub fn is_continue(&self) -> (b: bool)
        ensures
            b == !(*self is Exit),
    {
        !self.is_break()
    }
}

/// The command places an order on the book.
pub open spec fn places_order(command: Result<Command, Seq<char>>) -> bool {
    command matches Ok(Command::Buy { .. }) || command matches Ok(Command::Sell { .. })
}

/// The answer `reply` and the book `after` are what the command (or the
/// rejection) `command` makes of the book `before`.
pub open spec fn responds(
    before: OrderBook,
    command: Result<Command, Seq<char>>,
    after: OrderBook,
    reply: Reply,
) -> bool {
    match command {
        Err(message) => reply matches Reply::Rejected(m) && m@ == message && after == before,
        Ok(Command::Print) => reply is ShowBook && after == before,
        Ok(Command::Exit) => reply is Exit && after == before,
        Ok(Command::Buy { price, qty }) => reply matches Reply::Traded(t) && before.matches_into(
            OrderRequest { side: Side::Bid, price, quantity: qty },
            after,
            trade_views(t@),
        ),
        Ok(Command::Sell { price, qty }) => reply matches Reply::Traded(t) && before.matches_into(
            OrderRequest { side: Side::Ask, price, quantity: qty },
            after,
            trade_views(t@),
        ),
        Ok(Command::Cancel { id }) => reply matches Reply::Cancel { id: i, cancelled } && i == id
            && before.cancels_into(OrderId(id), after, cancelled),
    }
}

/// Carries out a command, or passes its rejection on.
fn apply_command(orderbook: &mut OrderBook, command: Result<Command, String>) -> (reply: Reply)
    requires
        old(orderbook).wf(),
        places_order(text_result(command)) ==> old(orderbook).can_make_order(),
    ensures
        final(orderbook).wf(),
        responds(*old(orderbook), text_result(command), *final(orderbook), reply),
{
    match command {
        Ok(Command::Print) => Reply::ShowBook,
        Ok(Command::Buy { price, qty }) => {
            let request = OrderBook::make_order_request(price, qty, Side::Bid);
            let trades = orderbook.matching_order(request);
            Reply::Traded(trades)
        },
        Ok(Command::Sell { price, qty }) => {
            let request = OrderBook::make_order_request(price, qty, Side::Ask);
            let trades = orderbook.matching_order(request);
            Reply::Traded(trades)
        },
        Ok(Command::Cancel { id }) => {
            let cancelled = orderbook.cancel_order(OrderId(id));
            Reply::Cancel { id, cancelled }
        },
        Ok(Command::Exit) => Reply::Exit,
        Err(e) => Reply::Rejected(e),
    }
}

/// Answers one line of the prompt: reads it, capitals and all, as a command
/// and carries it out on the book. Left out are the inputs on which this
/// fails without an answer: `delete` followed by no order id, and an order
/// when the book has run out of order ids.
pub fn interactive_mode(orderbook: &mut OrderBook, line: &str) -> (reply: Reply)
    requires
        old(orderbook).wf(),
        !deletes_unreadable_id(lowercase(line@)),
        places_order(command_of(lowercase(line@))) ==> old(orderbook).can_make_order(),
    ensures
        final(orderbook).wf(),
        responds(*old(orderbook), command_of(lowercase(line@)), *final(orderbook), reply),
        words(lowercase(line@)).len() > 3 ==> {
            &&& reply matches Reply::Rejected(m) && m@ == "Parsing failed"@
            &&& *final(orderbook) == *old(orderbook)
        },
{
    proof {
        lemma_command_word_counts(lowercase(line@));
    }
    let command = parse_command_or_error(to_lowercase(line));
    apply_command(orderbook, command)
}

/// Answers one line of the prompt as `interactive_mode` does, or returns
/// `None`, leaving the book as it was, on the inputs that `interactive_mode`
/// leaves out.
pub fn interactive_step(orderbook: &mut OrderBook, line: &str) -> (reply: Option<Reply>)
    requires
        old(orderbook).wf(),
    ensures
        final(orderbook).wf(),
        ({
            let lower = lowercase(line@);
            if deletes_unreadable_id(lower) || (places_order(command_of(lower))
                && !old(orderbook).can_make_order()) {
                reply is None && *final(orderbook) == *old(orderbook)
            } else {
                reply matches Some(r) && responds(
                    *old(orderbook),
                    command_of(lower),
                    *final(orderbook),
                    r,
                )
            }
        }),
{
    let lower = to_lowercase(line);
    if has_unreadable_delete_id(lower.as_str()) {
        return None;
    }
    let command = parse_command_or_error(lower);
    let places = match &command {
        Ok(Command::Buy { .. }) => true,
        Ok(Command::Sell { .. }) => true,
        _ => false,
    };
    if places && !(orderbook.order_id_counter < u64::MAX && orderbook.next_seq < u64::MAX) {
        return None;
    }
    Some(interactive_mode(orderbook, line))
}

} // verus!
