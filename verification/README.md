# envoy

A coordination server for coding agents: agent identity with a parent/child
hierarchy, direct messaging with per-recipient sequence numbers, project
events with per-agent replay, dependencies between agents, circuit breaking
of pushes, per-agent rate limiting and an audit trail.

## Layout

- `src/` — the library, verified with Verus. Every decision the server makes
  lives here with its contract: the agent registry (`agent.rs`), circuit
  breaker (`circuit.rs`), rate limiter (`rate_limit/`), message validation and
  polling (`message/`), events, replay and delivery tracking (`event/`),
  channels and catch-up (`engine.rs`), dependencies, project subscriptions and
  monitors, audit records, the WebSocket session steps (`http/ws.rs`), the
  hook's summaries and relations (`hook.rs`), and the shared text, time and
  ordering helpers. Laws relating several operations are public proof
  functions named `law_*`.
- `tests/` — tests of the library on concrete values.
- `app/` — the server program: command line, the HTTP routes and the graph
  database. It reads the stored records, hands them to the library as plain
  values, and writes back what the library decided.
