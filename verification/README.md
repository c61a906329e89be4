# colony

A distributed cellular colony simulation. The colony's grid is cut into
shards; each backend hosts some shards, ticks them, and sends the borders of
its shards to the backends that host their neighbours. A coordinator starts
the colony, lays the shards out over the backends, draws colony events, and
records statistics. A viewer shows the colony's layers and tables.

## Layout

- `src/` — the verified library (Verus).
  - `model`, `shard`, `shard_utils`: cells, the shard grid and its tick rule,
    border export and import, data layers and per-shard statistics.
  - `colony`, `events`, `event_generator`: the shards a backend hosts, colony
    events and how they are drawn and scheduled.
  - `backend_node`: a backend as a state machine answering each request.
  - `cluster`, `coordinator_storage`, `http`, `statistics`, `colony_stats`,
    `ranking`: layout planning, the coordinator's record and HTTP routing,
    colony-wide statistics and histograms.
  - `viewer`, `latency`, `config`, `wire`, `text`: the viewer's decisions,
    latency bookkeeping, configuration, byte formats and number text.
  - `random`: the random draws, through the `rand` crate.
- `app/` — the processes (`backend`, `coordinator`, `frontend`, `viewer`):
  sockets, files, JSON and bincode, images, and the floating-point landscape
  and colour scales.
- `tests/` — tests of the library.
