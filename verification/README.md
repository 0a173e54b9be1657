# traceforge

A local-first engine for security event logs: ingestion of JSON Lines and
CSV, a small query language answered from an inverted index, an entity graph
with hop-count and risk-weighted path search, explainable detection rules, and
a deterministic generator of synthetic traffic.

The library in `src/` is written in Verus and proved against its contracts:

| Module | Contents |
| --- | --- |
| `text`, `time`, `sort` | character sequences, instants in `chrono`'s range, ordering of text |
| `trie`, `postings`, `heap`, `union_find` | prefix trie, ordered posting lists, indexed min-heap, union-find |
| `query` | lexer and parser of the query language, with its grammar as a specification |
| `index` | the search index, query evaluation with its execution plan, the linear scan |
| `agree` | proof that the index answers exactly what a linear scan selects, for queries whose terms read fields the way the index files them (a phrase occurs as whole tokens, a field the event has) and, when the query has a time range, for events and bounds on whole milliseconds outside leap seconds |
| `graph` | entity graph, connected components, breadth-first and Dijkstra path search |
| `detect` | sliding-window detection rules and entity rankings |
| `event`, `ingest` | event records, fingerprints, turning input rows into a report |
| `synthetic` | seeded generation of background traffic and attack scenarios |
| `engine` | the dataset a browser session works on, with its size limits |
| `lib.rs` | the persisted index snapshot and its integrity check |

`tests/` exercises the library on concrete inputs. `app/` holds the command
line program and the browser adapter's exports: argument handling, files, JSON
and CSV parsing through `serde`, and the serializable forms of the library's
values.
