# minimald_net

The networking logic of a session daemon: how boxes are named, addressed,
published and reached, and what traffic they may send. The crate is a library
whose items are verified with Verus; `src/` holds no I/O.

- `text`, `path`, `ordered`, `table`, `addr`, `session`: building blocks and the policy types.
- `dns`, `wire`, `answerer`, `dns_gate`: the name registry, DNS messages, the
  answerer for the zone, and the observation of a box's own queries.
- `proxy`: the by-name HTTP proxy: request heads, routing, upgrades, refusals.
- `subnet`, `gvproxy`, `switch`, `provider`, `attach`: the switch, its leases, its
  process, its frames, and the plan of a box's attachment.
- `policy`: pins, the box zone, declarations, warnings, and the control channel's
  messages. Egress verdicts come in from outside.
- `publish`, `dynamic_ingress`, `listen_watch`, `loopback`: published ports.
- `host_cohort`, `enforcement`: the classification of host-network boxes.

`app/` is the ordinary Rust around it: sockets, files, tasks and logs. It hands
the library plain values and performs what the library decides. `tests/` runs
the library on concrete values.

DNS wire format is left to `hickory_proto`; the contracts that stand for it are
in `src/wire.rs`.
