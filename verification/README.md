# reverse_proxy

The core of a reverse proxy, written in Verus: reading the configuration, framing HTTP messages,
rewriting requests, and deciding what to do with each connection. The library does no I/O; the
program under `app/` owns the sockets, the threads and the configuration file, and drives it.

## Layout

- `src/search.rs`, `src/text.rs`, `src/decimal.rs`, `src/double.rs`: bytes, texts and numbers.
- `src/headers.rs`, `src/http.rs`, `src/transmittable.rs`: requests and responses, from bytes and
  back. `src/http_laws.rs`: what is written is read back.
- `src/rewrite.rs`: rules that pick requests and rewrite them.
- `src/document.rs`: JSON documents as plain values.
- `src/config.rs`, `src/server.rs`: backends, rules and servers out of a document.
  `src/config_laws.rs`: what holds of every accepted configuration.
- `src/message.rs`, `src/stream.rs`: messages that come in packet by packet.
  `src/stream_laws.rs`: what a packet comes to.
- `src/connection.rs`: a client's connection, its backend, web sockets, and the order of sending.
  `src/connection_laws.rs`: what holds of every connection.
- `src/balance.rs`: which worker gets the next client.
- `src/tls.rs`: encrypted connections to backends.

## Configuration

The program reads `./static/reverse_proxy_conf.json`: an object with one member per server.

- `listener`: the address and port that the server listens on.
- `worker_count`: the number of workers.
- `backends`: a list of objects.
  - `name`: what rules call the backend; no two backends of a server share one.
  - `host`: the name or address to connect to.
  - `hostname`: optional; the value of the host header, which is `host` where this is left out.
  - `port`: optional; goes behind `host` when connecting.
  - `https`: optional; whether the connection is encrypted.
- `proxy_rules`: a list of objects, tried in order.
  - `type`: `proxy_rule_host`.
  - `from`: the host that requests are for.
  - `to`: the name of the backend that they go to.
