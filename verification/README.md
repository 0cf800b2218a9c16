# silent_nats

The core of a small message broker that speaks the NATS text protocol, written in Rust and
verified with Verus, and the server program around it.

- `src/subjects.rs`: subjects and their wildcards.
- `src/wire.rs`, `src/wire_laws.rs`: reading commands, framing messages, and what is read back.
- `src/server.rs`, `src/server/queue.rs`: clients, subscriptions and queues.
- `src/server/publish.rs`: a published message, delivered step by step.
- `src/server/laws.rs`: what every request and every delivery keeps, and how queues take turns.
- `src/client.rs`: a connection's decisions.
- `src/text.rs`, `src/table.rs`: texts and maps.
- `src/outside.rs`: the calls into other crates, with what is believed of them.
- `app/`: the program; it moves bytes and runs the channels.

The program listens on `NATS_HOST` and `NATS_PORT`, by default `0.0.0.0` and `4222`.
