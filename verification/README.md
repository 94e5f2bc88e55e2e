# momentum_backtest

A long/flat momentum backtest over daily closes: go long when today's close
is above the close `lookback` days earlier, else stay flat; the position
decided at a close earns the next day's return, so there is no look-ahead.

Layout:

- `src/` — the verified library (Verus):
  - `price.rs`: the `>` order of prices, taken as binary64 bit patterns;
  - `signal.rs`: `momentum_positions` and `days_long`, with the laws of the
    signal (alignment with the returns, warm-up, no look-ahead, rising and
    falling markets);
  - `csv.rs`: `parse_price_table`, the `date,price` file format.
- `tests/` — tests of the library.
- `app/` — the program: reading the file, the floating-point return,
  equity, CAGR, Sharpe and drawdown math, and the console and HTML/SVG
  report. Floating-point arithmetic is not verified.

The library has no trusted items: the white-space set used for trimming is
stated in `csv.rs` and its test compares it with `char::is_whitespace`.
