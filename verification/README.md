# Bilet Takip

Tracks ticket prices of concerts, theatre and stand-up events in one city on Bubilet,
Biletinial and Biletix, and reports on Telegram when an event is discounted, a category's
price drops, a sold-out event is back on sale, or a new event appears.

The library under `src/` is verified with Verus; `app/` is the program around it.

## Layout

- `src/text.rs`, `src/keyed.rs` — character-level text helpers, ordering, search, a stable
  sort, and `KeyedMap`, a string-keyed map kept in key order.
- `src/model.rs` — events, dates in Turkish time, money in kuruş (`parse_tl`, `fmt_tl`),
  Turkish folding, categories, HTML escaping.
- `src/config.rs`, `src/store.rs` — settings and the state kept between runs.
- `src/diff.rs` — comparing a scan with the state: new events, discounts, price drops,
  back in stock, with reference prices so a drop is reported once.
- `src/matcher.rs` — the same event on different sites.
- `src/messages.rs`, `src/telegram.rs` — message texts and cutting long messages.
- `src/bot.rs` — command-line flags, the run's schedule (when to poll, scan and stop),
  commands, recording each source's scan, source health and alerts, the messages of a scan.
- `src/sources/` — each site's pages and answers turned into events.
- `src/http.rs` — judging a fetched page.
- `app/` — `main`, the network, files, and reading JSON into the library's types.

Prices are integers in kuruş and percentages are in hundredths of a percent throughout the
library; the program converts the sites' TL amounts and the settings' percentages when it
reads them.
