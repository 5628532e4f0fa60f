# sina_quotes

Quotes and kline bars of international futures from Sina Finance: history
requests, the realtime quote feed, bar aggregation and an on-disk cache.

- `src/` is the library, written in Verus. Public functions state their
  results in `ensures` clauses over spec functions and views; the properties
  that relate several functions are public proof functions (`lemma_*`). The
  client's durations are held as the library's own `Duration`, so their
  defaults are stated too. Calls into chrono, url, urlencoding and
  serde_json go through small trusted wrappers whose contracts name what
  those crates compute.
- `tests/` runs the library on concrete values.
- `app/` is the program around it: the command line, HTTP and websocket I/O,
  files and locks, async tasks, and the floating-point prices of bars and
  quotes.
