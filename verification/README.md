# mcp-session

Bounded session management for MCP servers, verified with Verus.

The library in `src/` decides which sessions may be created, which one makes
room when the limit is reached, and what is left to do when a session closes. It
holds no locks and does no I/O: each step takes plain values, changes the
manager's state and returns what is to be done next.

- `manager.rs`: the session manager, step by step
- `builder.rs`, `config.rs`: how a manager is set up
- `rate_limit.rs`: the sliding-window rate limiter
- `order.rs`, `lifecycle.rs`: the creation order and the table of tracked sessions
- `rate_laws.rs`, `session_laws.rs`: what holds over any sequence of calls
- `contention.rs`: what holds however the steps of overlapping calls interleave

`app/` carries the decisions out: a session manager for rmcp's streamable HTTP
server, with tokio's locks and timers and with log events.
