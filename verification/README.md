# Payments engine

A payments engine whose rules are proved. It reads transactions as CSV, applies
deposits, withdrawals, disputes, resolves and chargebacks to per-client accounts,
and writes the resulting balances as CSV.

Each row is an immutable event, and an account is the projection that folding its
client's events produces. What the engine does to its state is written down as
mathematics, the code is verified against that with [Verus], and the properties
that make the engine trustworthy are proved of it: an event is applied at most
once, a rejected event changes nothing, no money is created, held funds are never
negative, and a frozen account stays frozen.

## Layout

| Where               | What                                                          |
|---------------------|---------------------------------------------------------------|
| `src/number.rs`     | decimals as mathematics: sums, rounding, range                |
| `src/text.rs`       | how numbers are written                                       |
| `src/rows.rs`       | how CSV text falls into records and fields                    |
| `src/decimal.rs`    | the calls into `rust_decimal`, with what they are trusted for |
| `src/amount.rs`     | `Amount`, a decimal in range                                  |
| `src/types.rs`      | `Transaction`, its identifiers, and parsing a record          |
| `src/account.rs`    | `Account`: balances and the operations on them                |
| `src/engine.rs`     | `Engine`: the rules, and `State::step`, which states them     |
| `src/io.rs`         | reading rows and writing the report                           |
| `src/processing.rs` | the loop over all rows, and its counts                        |
| `src/laws.rs`       | what holds of every event and every sequence of events        |
| `src/conservation.rs` | what holds of the money                                     |
| `src/projection.rs` | what holds of the way from rows to accounts                   |
| `src/printing.rs`   | what holds of the output                                      |
| `src/books.rs`      | the rules in the simplest terms, which the engine agrees with |
| `app/`              | the program: arguments, files, streaming, warnings            |

## Judgment calls

- Only deposits can be disputed, and only by the client that made them.
- A dispute may push `available` below zero if the funds are already gone. Negative
  balances are kept, not clamped, so that a loss stays visible.
- A chargeback freezes the account: every later event of its client is rejected.
- A withdrawal for a client without an account opens an empty one and then fails.
- Held funds never go below zero, and a total is always in range: an operation that
  would break either is rejected, and the account stays as it was.
- Amounts are written with at most four decimal places, and rows have at most four
  fields; a row with more of either is malformed. Malformed rows are skipped and
  counted, and never stop the stream.

## Range

Balances are 96-bit decimals. As long as no client's recorded deposits come to more
than 7922816251426433759354395.0335, no sum is ever rounded or out of range. Any
number of deposits of up to a quadrillion each stays below that. Beyond it, sums lose
decimal places to rounding as the decimal type prescribes, and an operation out of
range is rejected.

[Verus]: https://github.com/verus-lang/verus
