# loghound

LogHound builds a temporal knowledge graph from Windows security telemetry
carried in OPLC SIEM envelopes: it parses the log lines, normalizes them to
OCSF-shaped events, correlates them into entities (users, hosts, processes,
sessions, addresses, files, …) and time-stamped relationships, runs detection
rules over the events, and answers traversal queries over the graph.

The library under `src/` is written in Verus and verified: each public
function states in `ensures` what it returns, over spec functions and views.

Layout of `src/`:

- `time`, `ids`, `node`, `edge`, `event`, `strmap`, `text`, `num`, `decimal`,
  `binary64`: the data model — validity intervals, content-addressed ids
  (xxh64), nodes, edges, events, string maps and the string/number helpers
  they use. Numbers in filters are read as decimals and compared as the
  binary64 values they round to (nearest, ties to even), in integer
  arithmetic.
- `record`, `timestamp`, `oplc`, `parser`: the OPLC envelope and payload
  parsers (the Windows XML payload goes through `quick-xml`).
- `config`, `normalizer`: mapping configuration and OCSF normalization.
- `identity`, `builder`, `correlator`: entity keys and the correlation of
  events into deduplicated nodes and edges.
- `index` (with `index/components`), `analytics`, `query`: the CSR snapshot,
  k-hop, reachability, shortest path, degree and connected components, and
  the turning of query parameters into traversal options.
- `dsl`, `rules`, `engine`, `group`, `sigma`, `alerts`: the detection-rule
  language, rule sets, the detection engine, Sigma import and the alert graph.
- `store`, `tally`, `pipeline`: records kept by the store, sorted tallies, and
  the steps of the `parse` and `ingest` commands.

`app/` holds what stays outside the library: the command line, the DuckDB
store, the HTTP API, YAML/JSON (de)serialization, and the floating-point
analytics (PageRank, composite risk, attack paths).

`tests/` exercises the library from outside.
