# wicked-overlay

A cross-store overlay: one graph, at read time, over a home engine (a code graph) and foreign engines
(memory, knowledge) that each keep their own store.

The overlay owns only the edges between the stores. A cross-edge says, for instance, that a document
is *about* a code symbol, and is stamped with the epochs that both ids had when it was written.
Reading from the code symbol then reaches the document in one hop, though the two share no word. An
edge whose stamps are no longer live is dropped, and the log says why: an id that was deleted and
used again never answers for the old one. Search, ranking and everything else stay with the home
engine.

- `src/` is the library, verified with Verus. `xedge`, `sql` and `store` hold the cross-edges;
  `graph` and `engine` the graph values and the engines; `overlay` is the reader. `store_laws`,
  `overlay_laws`, `neighbor_laws`, `traversal_laws`, `budget_laws` and `depth_laws` state what holds
  of it as a whole.
- `app/` puts the overlay behind the `GraphRead` and `AsyncGraphStore` traits of
  `wicked-estate-core`, shares the store between threads, and prints the log.
- `tests/` runs the library over `rusqlite`, over the stores of `wicked-estate-store`, and over
  engines that reply by script.

What the library takes on trust is marked where it is declared: the calls into `rusqlite` and into
`wicked-estate-core`, with what is claimed of each. The rows of a database are spoken of only where
nothing else reads or changes it, as with a store that lives in memory.
