# KeyQuorum

A secret is split into a tree of quorums. Every split node holds a threshold and
its children; every leaf is bound to a hardware key, and its share is sealed to
that key. The secret comes back when every node on the way up meets its quorum.
Leaves can be added, evicted and rebound; evicting one refreshes the shares of
its siblings without the secret being put together.

Around the trees stand a vault of credentials, locked files, PINs, share links,
sealed export bundles, a relay for envelopes and public trees, and the rules by
which a provider's machine may work in a network.

## Layout

- `src/` is the library. All of it is verified with Verus: what a function does
  stands in its `ensures`, over the views and spec functions beside it. What the
  library promises as a whole stands in public proof functions, such as those of
  `key_tree/laws.rs` and `key_tree/upkeep.rs`.
- `tests/` runs the library with the real cryptographic crates.
- `app/` is the program: argument handling, files, SQLite, the HTTP server and
  its client. It loads plain rows, hands them to the library, and writes back
  what comes out. `app/sound.rs` tests on loaded rows what the library requires.

## What is trusted

Ciphers, digests, signatures, key agreement and the arithmetic of shares come
from outside crates, each behind a small function whose contract says what is
taken on trust. They stand in `crypto.rs`, `encoding.rs`, `sealing.rs`,
`signing.rs`, `shamir.rs`, `export.rs` and `text.rs`, marked
`#[verifier::external_body]` or `assume_specification`.

Time is an argument: instants are seconds since 1970.
