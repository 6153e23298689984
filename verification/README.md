# big_bucks

A pair-trading toolkit for crypto-currencies: it fetches hourly price
histories, carries them onto one timeline, tests two series for
cointegration, and turns the spread's z-score into orders.

- `src/` is the verified library (Verus):
  - `fetch`: the market-chart query (address, parameters, URL), the asset
    names of the price feed and of the chart service, and the price feed's
    step: what it does with each event and when it stops.
  - `interp`: the rebase plan — the common timeline of several charts and,
    for each chart, its stable order by time and the two points around each
    timeline point.
  - `regression`: the shape checks and the design-matrix layout of the
    lagged autoregression of first differences.
  - `signals`, `orders`, `strategy`: the trading policy's decision on a
    signal, given the held assets.
- `app/` is the program around it: HTTP and websocket I/O, the floating-point
  regressions and statistics, price interpolation, order sizing and plots.
- `tests/` runs the library on concrete cases.
