# pixel_agent

A web analytics agent for nginx tracking-pixel logs, with its core proved
correct in Verus.

The agent tails `/var/log/nginx/pixel.log`, turns pixel hits into page views,
hosts, referrers, countries and UTM parameters, counts them in time buckets,
keeps the counts in a local time-series storage that is saved to and restored
from snapshots, and serves them as JSON and in the Prometheus text format.

## Layout

- `src/` — the verified library.
  - `text.rs`, `strmap.rs`, `seqs.rs`: string scanning, a sorted string map
    and sequence lemmas that the rest builds on.
  - `parser.rs`: the combined log format grammar, URL and query parsing, and
    the pixel events that a line reports.
  - `aggregator.rs`: the bucketed visit counters.
  - `web_storage.rs`: the series storage (insert, queries, top lists,
    collection of old data, snapshots).
  - `server.rs`: the Prometheus exposition and the metrics API answers.
  - `agent.rs`, `config.rs`: log offsets, log levels and settings.
  - `laws.rs`: properties that relate several operations, proved over the
    specifications the functions above state.
- `tests/` — tests of the library.
- `app/` — the program: configuration file, GeoIP lookup, snapshot files,
  the HTTP server and the polling loop (`pixel-agent <config>`), and the
  one-shot rebuild from a whole log (`pixel-agent backfill <config> [<log>|-]`).
