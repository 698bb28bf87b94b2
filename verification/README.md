# Bullet

An event-driven engine for strategy research, deterministic backtests and live
inference, verified with Verus.

- `src/` is the library. Its functions have contracts that Verus proves, except for
  a few small ones that call into other crates or the standard library: their
  contracts are relied on.
  - `market`, `events`, `execution`, `portfolio`, `strategy`, `features`, `ml`:
    the domain values and the rules on single orders and events.
  - `engine`, `backtest`: event dispatch, order states, and the
    dual-moving-average run on top of them.
  - `fixed_capital`: the component-level replay with its books, daily returns,
    performance and records; `fixed_capital::laws` and `fixed_capital::conduct`
    hold what is proved of whole replays and of the strategies in them.
  - `data`: bars out of columns.
  - `live`: configuration, market-data feed, model, remote-account protocol,
    ledgers and command line of the live runner.
  - `cli`, `report`: the arguments of a strategy run, the package around a strategy,
    and the lines of a backtest's report.
  - `binary64`, `decimal`, `statistics`: IEEE 754 double precision on bit
    patterns, and what is computed with it.
  - `calendar`, `text`, `ordered`, `arrange`: days and clocks, texts, sorted sets
    and maps, stable sorting.
- `app/` is the program around the library: files, network and processes.
- `tests/` runs the library on concrete values.

Numbers are bit patterns of `binary64::Binary64`; a caller converts with
`f64::to_bits` and `f64::from_bits`. Calls into other crates stand behind small
functions whose doc comments say what is relied on.
