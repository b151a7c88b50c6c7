# rust-mqtt

An MQTT v3.1.1 client library with a RELAY adapter, whose logic is verified
with Verus.

## Layout

- `src/` — the verified library:
  - `topic` — MQTT §4.7 topic matching, with the system-topic and namespace
    isolation laws;
  - `message`, `relay`, `adapt`, `error`, `text` — messages, the RELAY
    envelope and its conversions, errors and their texts;
  - `v3/codec`, `v3/packet` — the wire format: Remaining Length, fields and
    every packet the client and broker build or read;
  - `v3/session` — the TCP client's decisions: packet identifiers, in-flight
    QoS 1 and QoS 2 publishes, subscriptions, CONNACK and incoming packets;
  - `broker` — the embedded broker's decisions for each packet a connection
    sends;
  - `mock` — the in-process broker;
  - `backpressure` — the bounded queue behind the three back-pressure
    policies.
- `app/` — the command-line tool and the asynchronous clients, broker and
  RELAY node built on the library (sockets, tasks, timers, JSON).
- `tests/` — tests of the library on concrete values.

## Outside crates

`tokio`, `async-trait`, `clap`, `serde`, `serde_json`, `thiserror` and
`chrono` serve the asynchronous clients, the command-line tool and the JSON
forms in `app/`. `base64` is there because the JSON forms of a message and
of a RELAY envelope carry payloads and correlation data as standard base64
strings (`app/wire.rs`), the encoding RELAY's golden vectors use for their
payloads.

The wall clock is read with `std::time::SystemTime` rather than
`chrono::Utc::now`: the latter panics when the clock reads before the Unix
epoch, a condition no precondition can rule out, while the library's
functions are proved not to panic. A clock before the epoch gives a
negative `Timestamp` instead.

## Tables

The library keeps its tables (subscriptions by identifier, the QoS 2
packets awaiting PUBREL, the PUBACK waiters, retained messages by topic,
message metadata) in `Vec`s with stated invariants (distinct keys, the
order entries arrived in) rather than in hash or tree maps. The contracts
speak of that order: a publish is offered to subscriptions in the order
they were made, a new subscription is replayed the retained messages in
the order they were retained, and lookups find the first entry with a key.
A `HashMap` walks its entries in an order that nothing specifies, so those
statements could not be made of it; `mock::retained_map` gives the
retained list's view as a map by topic where a contract needs one.
