# amethystate

The logic of a typed key-value state store, proved with Verus: the parts
of it that decide, kept apart from the engines, threads and files around them.

`src/` holds the library: store paths and their order, declared fields and
who owns which path, the write buffer and how it is laid over committed data,
flush plans, the tree document of the text engines, store events and who hears
them, the comparison of recorded and declared schemas, migration plans and the
migration context, depth limits, debouncing, and the configuration-file rules.
Every function there carries a contract, and the library's laws (a read sees
the write, a flush lands what was buffered, a comparison turned round swaps
releases and claims, and the others) are public proof functions.

`app/` holds what Verus does not see: serde conversions, logging through
`tracing`, and finding the configuration directory.

`tests/` runs the library on concrete values.
