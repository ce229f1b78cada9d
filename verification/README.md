# ant_core

The decisions of a client of a peer-to-peer storage network, as a verified
library: how content is split, quoted, paid for, stored and fetched again.
Executable code stands beside its contracts, and Verus proves the one from the
other.

## Layout

- `src/data/client/` holds the client itself: quotes and their selection,
  payments, single chunks, batches, merkle payments, uploads and downloads.
  Network and disk work is done elsewhere: each of these modules says what is to
  be done next, and takes in what came of it.
- `src/data/` holds what the client works with: data maps, errors, the peer
  cache, and the settings of a network node.
- `src/node/` and `src/cli/` hold the types of the node daemon and the rules of
  the command line.
- `src/order.rs`, `src/xor.rs`, `src/uint256.rs`, `src/text.rs`, `src/paths.rs`,
  `src/collections.rs` and `src/chunked.rs` are the ground that the rest stands
  on.
- `src/protocol.rs`, `src/data/data_map.rs` and `src/data/client/merkle_pool.rs`
  hold most of the calls into other crates. What is believed of each of them is
  said above it.
- `app/` is ordinary Rust around the library: it sends, receives, reads and
  writes.
- `tests/` runs the library on concrete values.

Properties of the library as a whole are public proof functions, each beside the
functions that it speaks of.

`Cargo.toml` holds `serde_with`, which no file here names, at one release: the
payment library brings it in, and later releases bring in many more crates.
