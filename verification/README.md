# fraud-index

A verified library for scoring card transactions against labelled reference
vectors, and the service around it.

A transaction arrives as a JSON document over HTTP. It becomes a vector of
fourteen features; threshold rules settle the clear cases, and the five nearest
reference vectors vote on the rest. Neighbours are found with an inverted file
index: the references are clustered into cells, and a search scans the cells
whose centroids are nearest.

## Layout

- `src/` is the library, verified with Verus:
  - `scan`, `number`, `calendar`, `words`: bytes, numerals, weekdays and
    little-endian integers
  - `json_values`, `json_parser`, `mcc_risk`, `references`: the documents that
    are read
  - `spelling`, `document_laws`: what a document says in any order and with any
    whitespace
  - `vectorize`, `fastpath`, `engine`: from a transaction to its score
  - `distance`, `ranking`, `dataset`, `ivf`, `search_laws`: nearest neighbours
  - `kmeans`, `index_file`, `index_laws`: building, writing and reading an index
  - `http`, `server`, `cache`, `balance`: requests, connections and backends
- `tests/` runs the compiled library.
- `app/` is the program: sockets, epoll, memory maps, and single-precision
  arithmetic.

Proof functions named `law_..` state what holds of several functions together.
