# x4mp

Replication core for a co-op multiplayer mod: a central server assigns a
monotonic `seq` to every event of a session, appends it to an NDJSON event log
and echoes it; a local bridge connects the game to the server; tools replay a
session log and compare the world state of two game instances.

- `src/` — the verified library (Verus): protocol types and display-name
  validation (`proto`), text handling (`text`), JSON field reads through
  serde_json (`json`), event-log framing and its read-after-write laws
  (`event_log`), session state (`session`), the server's handshake decision
  and connection state machine (`server`), the offline buffer
  (`offline_buffer`), the bridge's handshake logic and named-pipe decisions
  (`bridge`), replay filtering and acknowledgement (`replay`) and the
  divergence analysis, from reading snapshot payloads to the report
  (`divergence`).
- `app/` — the executables (`x4mp server | bridge | replay | q3-divergence |
  spike-feeder`): sockets, files, environment, JSON encoding and logging.
- `tests/` — tests of the library.
