# graphify_plugin_telemetry

A bridge from observability data to the symbols of a code graph, verified with
Verus.

Metrics come in as points: a file, a line, latencies and sizes. The bridge

- binds each point to the canonical id of the innermost symbol around it, such as
  `src/db/query.rs:function:query_users`, which does not change when lines move;
- judges whether the metric is a hotspot (by default a p99 above 500 ms or more
  than 5 MB allocated per request; `TELEMETRY_HOTSPOT_P99_MS` and
  `TELEMETRY_HOTSPOT_ALLOC_BYTES` set other limits);
- keeps it in the `telemetry_bindings` table of the shared `graphify.db`, where
  each workspace sees only its own rows;
- writes the hotspots of a workspace as an observability block, which goes out in
  a packet under `plugin_data`.

## Layout

- `src/`: the library. Every function is verified against its contract; laws that
  relate several functions are public proof functions next to them.
- `tests/`: tests of the library.
- `app/`: the plugin as a host loads it, with the database, the network, files and
  the environment.

Latencies are binary64 numbers. The library holds their bits and computes with
integers; the contracts speak of the numbers that the bits encode.

## What is trusted

The library calls `serde_json` to read and write JSON text (`src/json.rs`) and
`String::push` (`src/text.rs`). Their contracts are stated there and not proved.
