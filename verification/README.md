# irys_actors

The services of an Irys node that hold its mempool, sync its data partitions and follow its
epochs, as a verified library with a thin shell of ordinary Rust around it.

- `src/` is the library. Its functions carry contracts that Verus proves. The exception is the
  small functions marked `external_body`, each of which makes one call into an outside crate: their
  contracts, and the names that these contracts give to results, are believed and not proved.
  - `mempool/`: the pools of pending transactions with their bounds, the checks of transactions,
    chunks and ingress proofs that come in, the selection of transactions for a block, promotion,
    and what confirmed blocks and reorganisations do to the pools.
  - `data_sync/`: the scheduler that asks peers for chunks, its retries and its peers' statistics.
  - `epoch/`: slots, partitions, commitments and the storage modules they give work to.
  - `ema.rs`: the price history of blocks.
  - `hashing.rs`, `primitives.rs`, `ordered_map.rs`, `text.rs`, `transactions.rs`: what the others
    are written with.
- `tests/` runs the library.
- `app/` does the I/O: locks, channels, the network, the disk, metrics, and the database and the
  chain behind the `Node` trait.

What is proved of several functions together stands in proof functions whose names begin with
`law_`, beside the functions they are about.

Times are in milliseconds unless a name says otherwise.
