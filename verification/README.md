# indicator_engine

Market indicators over one-minute trade history, and the messages that carry them to a
broker. The rules are verified with Verus: each function states in its contract what it
returns, and the laws that span functions are proof functions named `law_...`.

## Numbers

The library does no floating-point arithmetic. A double enters it as its *order key*, an
integer that sorts as the double does (`order`), so that every comparison a rule makes is
exact and can be reasoned about. Sums, quotients and deviations are computed outside and
handed in as keys, as the *measures* of a bar, a leg or a window, or by a function that
the caller passes and the library calls at each bar, leg or session row. Where the sign of
zero counts, or a figure may not be a number, the double enters by its bit pattern. A state that
runs along with the minutes answers each minute with a *step*: what is to be added to the
sums that belong to it and what is to be taken out of them.

Instants are microseconds since the Unix epoch. JSON enters and leaves as text.

## Layout

- `src/`: the verified library.
  - Ground: `order`, `clock`, `text`, `history`, `windows`, `rolling`, `grouping`,
    `ranking`, `pivots`, `events`.
  - Events: `absorption`, `initiation`, `exhaustion`, `divergence` with `bootstrap`.
  - Windows and bars: `cvd`, `kline`, `avwap`, `rvwap`, `pulse`, `funding`, `tpo`, and
    `incremental`, which runs the last five together.
  - Books and positions: `depth`, `liquidation`, `positioning`.
  - Messages: `publisher`, `outbox`, `relay`, over `json` and `packing`.
- `tests/`: tests of the library from outside.
- `app/`: ordinary Rust around the library: floating-point figures, JSON documents of
  the indicators, the database and the broker.

## What is trusted

The contracts of a few calls into other crates are believed, not proved: `serde_json`
(`json`), `flate2` (`packing`), `chrono` (`clock`), `uuid` (`publisher`), `lapin`'s header
tables (`outbox`) and the case mapping of `std` (`text`). Each wrapper says in its comment
what it claims. That a number that was written reads back as it was rests on the feature
`float_roundtrip` of `serde_json`.
