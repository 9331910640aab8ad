# mqtt_hub

The hub of an MQTT broker as a verified state machine.

- `src/` is the library. A command goes in, the state changes, and a list of effects comes out.
  Every function has a contract, proved by Verus, over a model of the state. The functions named
  `law_*` prove what holds across operations.
- `tests/` runs the library: `broker.rs` puts a hub into a small world that does what it asks for.
- `app/` is ordinary Rust around the library: the loop that feeds a hub, the workers of the lanes,
  and the interfaces that a host implements.

The library holds payloads in `bytes::Bytes`. What it takes for granted about that type stands in
`src/message.rs`, and is all it takes for granted.
