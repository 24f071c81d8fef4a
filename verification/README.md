# tg_ws_proxy

The verified core of a Telegram MTProto WebSocket bridge proxy, written in Verus.

- `src/text.rs` — white space, trimming, line splitting (`str::lines`), word splitting
  (`str::split_whitespace`) and unsigned decimal parsing, each against a spec.
- `src/json.rs` — the JSON tree that the address sources may serve, read through `serde_json`.
- `src/dc_updater.rs` — the built-in data-centre table, the parser of served address lists
  (JSON `dc_options` or `DC_ID:IP` lines), the order in which sources are tried, name
  resolution results, and the background updater's decision.
- `src/limits.rs` — the open-file limit read from `/proc/self/limits`, the default
  connection cap, the log level and the pause after a failed `accept`.
- `src/stats.rs` — the window's counters, byte units and bounded log buffer.
- `src/banner.rs` — the `tg://proxy` link and the configuration summary.
- `app/` — the network, file, logging, start-up banner and window code that drives the library.
