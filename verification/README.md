# crypto_primitives

Fixed-length collision-resistant hash functions and Merkle trees built on them,
verified with Verus.

- `src/crh/` — the `FixedLengthCRH` interface; the Pedersen hash on the JubJub
  curve (`pedersen::CRH`) and a seeded Blake2s hash (`pedersen::Blake2s`). Group
  arithmetic, random sampling and Blake2s itself come from `ark-ec`,
  `ark-ed-on-bls12-381`, `ark-std` and `blake2`, behind the wrappers in
  `src/crh/pedersen/jubjub.rs` and `src/crh/pedersen/blake2.rs`.
- `src/merkle_tree/` — tree construction, authentication paths, their
  verification and their byte form. `model.rs` states what each operation
  computes; `laws.rs` proves that a generated path verifies against the root,
  that a path read back from its bytes is the path written, that under
  parameters from `setup` no operation fails for want of a hash, that an
  all-zero leaf in a free position leaves the root as it is, and related facts;
  `index.rs` holds the arithmetic on node positions.
- `app/` — conversions from and to arkworks values and `std::io` streams.

Digests are handled by their byte encodings throughout: a Pedersen digest is
an affine JubJub point written as 64 bytes, a Blake2s digest 32 bytes.
