# funding-scanner

Research on the funding rates of perpetual swaps: a scan of the market, a collector, a dashboard,
an alert monitor, and a backtest with a sweep over 228 combinations of parameters. Everything that
decides or computes is a library whose behaviour is stated in contracts and proved with Verus; a
program around it talks to the exchange, the database, the terminal and Telegram.

## The library, `src/`

Numbers are IEEE 754 doubles, carried by their bit patterns and computed with whole numbers, so that
every result is specified exactly: each operation gives the nearest double to the exact result.

| Modules | What they hold |
|---|---|
| `binary64`, `rounding`, `arithmetic`, `monotony` | doubles, their operations and laws |
| `decimal`, `dates`, `util` | texts of numbers, moments, sizes and amounts |
| `order`, `grouping` | stable orders, extremes, rows grouped by name |
| `stats`, `tier` | means, deviations, trends, the score and the tiers |
| `backtest`, `simulation`, `trading_laws` | the rules of a trader, the replay of a history, and what holds of every replay |
| `metrics`, `summary`, `report`, `sweep`, `result_laws` | the figures of a backtest, its report, many backtests compared, and what holds of the figures |
| `history` | which part of a history is missing, page by page, and how rows become series |
| `signals`, `alerts`, `monitor`, `messages` | live signals, which changes are told and how often, and the words for it |
| `watch`, `scan` | what the dashboard, the scan and the persistence query show |

Laws that span several functions are public proof functions, such as
`trading_laws::every_trade_is_lawful` or `monitor::one_message_in_half_an_hour`.

The one function whose contract is believed and not proved is `dates::write_utc`, which has `chrono`
write a date.

## The program, `app/`

Subcommands: `scan`, `collect`, `persistent`, `watch`, `alert-monitor`, `backtest`,
`backtest-sweep`. It reads decimal text, takes logarithms, asks the clock, and stores readings in
`./data/snapshots.db`. The alert monitor reads `TELEGRAM_BOT_TOKEN` and `TELEGRAM_CHAT_ID`; without
them it logs what it would send.

## Disclaimer

This is research code, not financial advice.
