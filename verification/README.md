# bybit_api

A client library for the Bybit V5 API, verified with Verus.

- `src/utils.rs` decodes option symbols such as `BTC-27DEC24-100000-C-USDT`
  into base coin, expiry (08:00 UTC of the expiry day), strike price, put or
  call and quote coin. The symbol pattern is matched by the `regex` crate and
  the expiry date read by `chrono`, each behind one trusted function.
- `src/json.rs` writes compact JSON strings, numbers and string arrays.
- `src/auth.rs` signs authentication requests: lower-case hex of the
  HMAC-SHA256 (hmac crate, one trusted call) of `GET/realtime{expires}`.
- `src/websocket/client.rs` keeps what a streaming client knows: its
  subscriptions, the handler of each topic, whether it is connected and may
  trade, and writes the subscribe, unsubscribe and authentication requests.
  The laws of subscribing and unsubscribing, and the law of the connected
  flag over any sequence of calls, are proved there.
- `app/` holds the runtime: sockets, tasks, HTTP, the serde models of the
  replies (which carry floats) and the clock.
