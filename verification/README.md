# pairs_trading

A futures pair-trading system whose decision logic is proved with Verus.

- `src/` is the verified library:
  - `bars` numbers trading days as consecutive bars, selects contracts by
    prefix and splits a day's rows into the two legs of a spread;
  - `book` is the backtest's position book (sizes by symbol, peak count);
  - `calendar` reads dates from text with chrono, as day numbers;
  - `expiry` counts trading days to expiry and keeps positions away from
    expiring contracts;
  - `spread` keeps rolling spread windows, groups warm-up rows by day and leg,
    chooses the contract pairs that get
    a spread or are tried for entry, and gives the leg quantities of a spread;
  - `live` plans orders against a CTP-style broker (offset flags, leg order and
    scaling, flatten-everything plans, order and login state machines,
    position tallies and consistency checks);
  - `pairs` parses pair specifications and pair files and removes repeats;
  - `china_stock` holds the rules of the Chinese stock-market simulator;
  - `text` and `keyed` are the string and keyed-list helpers the rest builds on.
- `tests/` runs the library on concrete values.
- `app/` is the program around it: command line, parquet loading with polars,
  the CTP connection, the stock simulator's random prices, and every
  floating-point valuation (spreads, z-scores, profit, Sharpe ratio, drawdown).
