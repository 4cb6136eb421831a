# rinha_rust_tree

Low-latency scoring of card transactions: a transaction becomes a quantized vector, and the labels of
its five nearest neighbours among labelled references decide whether it is approved.

The library under `src/` is verified with Verus. Its contracts say what a function returns or changes;
the functions named `law_..` say what holds across functions. What the library takes from `serde_json` and `flate2` stands behind functions marked
`external_body`, each with a comment that says what is believed of the call.

| Module | What it holds |
|--------|---------------|
| `vector` | JSON payloads to vectors: the compact form, one pass, any JSON; binary64 arithmetic |
| `index` | building, storing, loading and searching the index; partition schemes; reference files |
| `http` | requests at the front of a buffer, and the fixed responses |
| `fd_passing` | the decisions of the event loop: connections, reading, writing, events |
| `api` | answering requests, readiness, the workers' sockets |
| `lb` | the load balancer's settings and its choice of workers |
| `tools` | what the command-line tools compute |
| `json`, `text`, `bytes`, `settings`, `runtime` | shared pieces and settings |

`app/` holds the programs around the library: system calls, threads, files and printed reports. The
first argument, or the name of the program, says which one runs: `api`, `lb`, `preprocess`,
`index_info`, `dump_knn_labels`, `measure_search` or `analyze_partitions`.

`tests/` runs the library from outside.
