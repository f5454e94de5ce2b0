# t_minus

Countdown events for coordinating agents: an event fires at its fire time
(`scheduled_at - t_minus`) only when enough attendees have confirmed;
attendees may defer, which a cascade turns into a longer countdown; and
campaigns order their events by dependencies, refusing any link that would
close a cycle.

Layout:

- `src/` — the library, verified with Verus.
  - `types.rs`: agents, responses, events and their counts.
  - `campaign.rs`, `kahn.rs`: campaigns and their topological order.
  - `store.rs`: records kept under distinct keys (write, read, remove).
  - `engine.rs`: the engine and every operation on events and campaigns.
  - `text.rs`, `input.rs`: names, messages, and reading durations, times
    and identifiers.
  - `ids.rs`: random identifiers and their textual form (the `uuid` crate).
  - `rows.rs`: the columns an event or a campaign is stored as, and reading
    them back (identifiers through `uuid`, instants through `chrono`).
- `app/` — the `t-minus` command line, and the SQLite tables that hold the
  library's rows.
- `tests/` — tests of the library.

Instants and durations are counted in nanoseconds, as chrono keeps them;
identifiers are the 128-bit values of UUIDs.
