# hassan

A transparent-settlement BlockDAG library (GHOSTDAG, Blake3-512 digests,
ML-DSA-87 signatures), written in Verus: the consensus arithmetic, the DAG
coloring, the explorer index, the address book, the keystore checks and the
address encodings are proved against their `requires`/`ensures` contracts.

Layout:

- `src/` — the verified library. One module per concern: `genesis`
  (issuance schedule and PoW eras), `pow`, `daa`, `ghostdag`, `finality`,
  `pruning`, `block`, `tx`, `select` (block transaction selection), `chain`
  (the chain state), `admission` (block admission and the header gate), `history`
  (history pruning below the pruning point), `trace` (the block event
  trace), `template`
  (the block template for miners), `address` (bech32m and legacy forms), `addrman`,
  `netaddr`, `economics`, `indexer`, `keystore`, `custody`, `dual_sig`,
  `abs_sig`, `hd`, `assume_valid`, `assurance`, `api`, `text`, `bytes`,
  `hash`, `crypto`. Calls into outside crates (blake3, fips204, fips205,
  num-bigint, argon2, chacha20poly1305, rand) sit behind small trusted
  wrappers whose contracts say what the crates document.
- `tests/` — ordinary Rust tests of the library.
- `app/` — the node-side plumbing: environment settings, files, JSON shapes,
  the shared-state API handle and the floating-point cost estimate.

Public proof functions named `law_…` state properties of the library as a
whole (issuance cap and halving, proof-of-work monotonicity, the k-cluster
property of the coloring, the bech32m round trip, address-book behaviour,
index framing, audit-trail determinism, diverse peer selection, the
binding-signature round trip).
