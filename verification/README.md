# Disputes

A verified library for disputes about parachain candidates, written in Verus.

Validators of a session state that a candidate is valid or invalid. Their signed
statements are collected per candidate. A supermajority on either side concludes
the dispute and has the other side punished; an included candidate that turns
out to be invalid has the chain reverted and frozen. Until enough validators take
part that one of them must be honest, a dispute on a candidate that the chain has
not included counts as potential spam of those who take part.

- `src/pallet.rs`: the operations on the disputes of a chain.
- `src/docket.rs`: what each operation means, over maps and sequences.
- `src/importer.rs`, `flags.rs`, `thresholds.rs`, `spam.rs`: votes and what
  follows from them.
- `src/payload.rs`, `signature.rs`: what validators sign, and whether they did.
- `src/storage.rs`: a map that is walked in the order of the chain's database.
- `src/bits.rs`: vote records.
- `src/hooks.rs`, `weights.rs`: what the chain around the disputes is asked to do,
  and what it costs.
- `src/vote_laws.rs`, `docket_laws.rs`, `spam_laws.rs`: laws that relate the
  operations to each other.
- `app/`: storage, events and hooks of a Substrate chain around the library.
