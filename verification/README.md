# ai_graph_engine

A knowledge-graph retrieval engine. Questions are answered from a graph of entities and relations:
the nodes nearest to the question are found by their embeddings, the graph is expanded from them,
what was reached is scored and ranked, and the best of it is the context of the answer. Models run
in a separate plugin server.

The library under `src/` is written in Verus: what each function does is stated in its contract and
proved. Promises that span several functions stand as public proof functions, named `law_...`,
beside what they speak of.

| Module | What it holds |
|---|---|
| `graph` | the graph in compressed rows, its construction, snapshots, expansion, edges between nodes |
| `delta`, `wal` | what was added since the last merge, the merge, and the log that survives a crash |
| `vector` | the file format of embeddings, exact search, the endpoints of the edge index |
| `entity_resolution` | whether a new entity is one that is already known |
| `query`, `cache` | options, seeds, scores to compute, ranking, context, several hops, caches |
| `plugin`, `startup` | requests to the plugin server, its readiness, the wait at startup |
| `api` | requests, their validation, responses and errors, and what each endpoint does |
| `middleware` | keys and rate limits |
| `config`, `metrics` | settings with their defaults; counters, histograms and their text format |
| `float`, `digits`, `text`, `json` | numbers as bits, decimal and hexadecimal text, strings, JSON values |

Floating-point numbers are held as their bits. Only their order and a few exact operations are
known to the library; similarities, scores and the nearest-neighbour index are computed in `app/`.

`app/` is the server around the library: HTTP, files, the plugin client, and serialisation.
`tests/` runs the library on concrete values.
