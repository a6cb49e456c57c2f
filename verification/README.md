# kaspa_client

A toolkit for Kaspa nodes whose logic is verified with Verus.

- `src/` is the verified library: the block DAG (`dag`), wallets and transaction
  building (`wallet`, with hashing, encodings and signatures behind small trusted
  wrappers in `crypto` and `codec`), mempool analytics and the stress simulation
  (`mem`), the decisions of the RPC client (`rpc`), of the notification listener
  (`events`), of the batch caches (`batch`) and of the network monitor (`monitor`),
  and client settings (`config`). `collections` holds the string-keyed set and map
  the others build on; `order` the stable orderings that sorting is specified by.
- `tests/` runs the library on concrete values.
- `app/` is the networked client around it: HTTP and websocket I/O, JSON, files,
  and the floating-point statistics.
