# Tracium

A monitor for a home internet connection: it probes a few targets, keeps what it
measured, notices outages, and reports on reliability, quality and security.

`src/` is the library, written and verified with Verus. It holds every rule: how
tool output is read, how a probe cycle is summed up, what the tables keep, when an
outage opens and closes, how connections are scored and graded, how samples become
rollups, what is flagged, and the texts of every command and of the dashboard.
Each function states what it returns; the laws of the library (names that begin
with `law_`) stand beside the functions they speak of.

`app/` is the program around it, `traciumd`: it opens connections, runs the system's
tools, reads and writes the SQLite database, and prints.

## Layout of `src/`

| Modules | What they hold |
|---|---|
| `text`, `number`, `order`, `stats` | characters, decimals, orderings and means |
| `addr`, `asn`, `bandwidth`, `devices`, `dns`, `ifstat`, `netinfo`, `ping`, `probe`, `router`, `security`, `speedtest`, `traceroute`, `wifi` | what measurements mean |
| `rows`, `store`, `tables`, `records`, `validity` | the tables, what each operation does to them, and testing rows that come from a file |
| `summary`, `rollup`, `export`, `diagnostics` | what the tables say over a window |
| `monitor`, `sampling`, `qoe` | what a cycle and the slower jobs do |
| `display`, `watch`, `report`, `page` | texts, the dashboard and the printed report |

## What is trusted

Four things are taken on faith, each beside its contract: `String::push`,
`str::to_lowercase`, `str::to_uppercase`, and `serde_json::to_string` on a list of
ports. Everything else in `src/` is proved from these and from the specifications
that Verus ships for the standard library.
