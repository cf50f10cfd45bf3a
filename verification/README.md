# Dipper

A Discord bot that watches cryptocurrency markets. Users send arithmetic
expressions over coin figures (`$BTC.LAST*2@USDT`), set watches that fire when
an expression moves by more than a threshold, and ask for graphs of an
expression's history.

## Layout

- `src/` is the verified library (Verus):
  - `token.rs`, `float_literal.rs`, `lexer.rs`: tokens and how text is split
    into them; numeric literals are recognised by the grammar that `f64`
    parsing accepts.
  - `postfix.rs`: conversion to postfix order, with laws on what it keeps and
    drops.
  - `parser.rs`: the `Parser` (tokens, postfix order, variables) and the
    expression tree that the postfix order denotes.
  - `grammar.rs`: the precedence law: an expression written with the usual
    precedence and associativity rules reads back as its own tree.
  - `expression.rs`: which coins and properties an expression names, in which
    markets it can be evaluated, and through which markets a result converts.
  - `command.rs`: chat messages read as commands.
  - `numbers.rs`: integer parsing and durations such as `15m`.
  - `market.rs`, `database.rs`, `text.rs`: market properties, connection info,
    string helpers.
- `tests/`: tests of the library.
- `app/`: the bot itself: Discord, MongoDB, the exchange API, graphs, and the
  floating-point evaluation of expression trees.

## Dependencies

The outside crates are used by `app/` only. `serenity` 0.12 has an async
API, so `tokio` is listed to give `app/main.rs` its runtime (`#[tokio::main]`
and the blocking calls around the MongoDB client); the library itself calls
no outside crate.
