# kora_core

The core logic of a sharded, stake-based payment chain, written in Verus. The
functions under `src/` carry `requires` / `ensures` contracts that Verus proves,
except the small wrappers marked `#[verifier::external_body]` around calls into
outside crates (ahash, sha3, curve25519-dalek, the polynomial crate, modinverse,
rand, getrandom) and a few std calls: their contracts are trusted, and each one's
doc comment says what it claims of the outside function.

## Layout

- `src/` — the verified library.
  - `bloom` — the keyed bloom filter of spent tags, with the laws that an insert
    keeps what was there and that a key is found after it is inserted.
  - `ringmaker`, `interpolation`, `poly`, `polyalg`, `modular` — ring membership
    encoded as a polynomial over a prime field, its wire format, and the
    algebra the proofs rest on, with the law that a ring made for spent
    positions reads back listing each of them (every inverse the interpolation
    needs exists, since the field's modulus has no divisor below `2^16`).
  - `transaction` — transaction records, their polynomial form and the summary
    of a block's transactions.
  - `wallet` — the wallet's friend list and the payment request it sends.
  - `validation`, `blockcheck`, `leadership` — signing and checking signatures
    and group signatures (over a generator the caller supplies), with the laws
    that a signed message is received as signed by its signer and that summed
    shares pass the group check; staker selection; the rules a block's signers
    must meet and the whole check of a block (`check_block`, which takes the
    serialized parts its signatures cover as bytes); and the leader vote.
  - `staking`, `stake_table` — the staker table, queues and committees: payments,
    punishments, departures, refills, a staker's own records, and the table's
    byte format.
  - `merge`, `assemble` — merging shard blocks and choosing a block's
    transactions.
  - `node`, `messages` — the steps a staker node takes when a lightning block
    arrives (catching up on missed blocks, settling, rotating the committees),
    the leader's and validators' rules, and the reading of gossiped messages,
    wallet updates and typed payment commands. These functions take what a
    node learned (a block's bytes, the height, the time) as arguments; the
    network loop that would gather it is not part of this crate.
  - `pswrd`, `codec`, `curve`, `sha`, `sorting`, `keyed_hash` — wallet passwords,
    little-endian codecs, and the contracts of the outside calls; `keyed_hash`
    records, beside each keyed hasher, its keys and every byte it absorbed, so
    that a digest carries the input it was made from; the functions that hash
    return the digests they used, and their contracts speak of those.
- `tests/` — tests of the library on concrete values.
- `app/` — the command-line front end: argument handling, files, floating-point
  schedules.
