# load_balancer_l4

A layer-4 TCP load balancer whose decision logic is a verified Verus library.

- `src/` — the verified library:
  - `balancer.rs`: algorithms (round robin, weighted round robin), the virtual table,
    the balancer's operations and the laws of the rotation (table contents, fair windows,
    disabled backends never picked, idempotent updates, name/parse round trip).
  - `telemetry.rs`: connection counters and their accounting per connection.
  - `control.rs`: the control plane over the shared store: keys, effective weights,
    algorithm switches with weight save/restore, start-up seeding, reset; a model of the
    store and the laws of each plan.
  - `dashboard.rs`: checks of the dashboard's requests and its snapshot.
  - `config.rs`: start-up settings (weights, backend list, algorithm choice).
  - `watchdog.rs`: what the health checker publishes and logs.
  - `load_test.rs`: decisions of the load clients (pacing, failure classes, attribution).
  - `text.rs`, `models.rs`: character-level helpers and the backend type.
- `app/` — the programs: the balancer (TCP accept loop, store polling, HTTP dashboard),
  the dummy backend, the watchdog and the two load clients. They perform the I/O and call
  the library for every decision.
- `tests/` — tests of the library.
