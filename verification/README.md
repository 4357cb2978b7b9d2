# ferrum-match

A small matching engine for a crypto exchange, written in Verus. Buy and sell
orders are matched by price-time priority: an incoming order trades with the
best price on the other side first, and within a price with the oldest order
first; what is left of it rests on the book.

## Layout

- `src/orderbook/types.rs` — orders, requests, trades and the book itself.
- `src/orderbook/model.rs` — the mathematical model the contracts are written
  in: each side of the book as a map from price to a queue of orders, and the
  recursive `sweep` that says what matching does.
- `src/orderbook/book.rs` — the verified engine: making orders, resting them,
  matching, cancelling.
- `src/orderbook/laws.rs` — proved laws: quantity and volume are conserved,
  trades respect the limit and come best price first, orders at one price trade
  in arrival order, a book whose bids are below its asks stays so, an order rests
  only when nothing it could trade with is left, no two resting orders ever share
  an id, cancelling right after adding gives the book back, and a single price
  level swept for its whole volume trades each order whole and empties the book.
- `src/modes/text.rs` — splitting a line into words and reading decimal numbers.
- `src/modes/interactive.rs` — the prompt's command language and what each
  command does to the book.
- `src/cli.rs` — reading the arguments of the one-shot `add` command.
- `app/main.rs` — the `ferrum` program: command-line parsing, the line editor,
  and printing.
