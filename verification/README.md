# accum-node

Core of the ACCUM node, with its behaviour stated in contracts and proved by Verus.

- `src/` is the verified library: targets and their compact form, the header and
  transaction byte layouts, difficulty adjustment, the share pools and their
  epoch commitments, the genesis block, the peer protocol's rate limits and
  answers, epoch bookkeeping, bond rules and the storage key layout. Calls into
  `argon2`, `sha2`, `ripemd` and `hex` stand behind small trusted wrappers whose
  contracts name what those crates compute.
- `tests/` runs the library on concrete values.
- `app/` is the node program: RocksDB storage, the libp2p network, the miner
  loop, and the parts that work with floating-point scores (PoCI rewards,
  miner loyalty, target scaling by a factor).
