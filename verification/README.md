# weakseq

A block-less batch-auction sequencer confirmed by weak consensus, verified
with Verus.

Orders stream into a mempool and are sealed into batches. Each batch clears
at one uniform price, so arrival order within a batch changes nothing; each
batch is then finalized on its own by a quorum certificate of validator stake.

## Layout

- `src/` — the verified library.
  - `order.rs`, `error.rs`: prices, quantities, orders and errors.
  - `batch.rs`, `digest.rs`, `ranking.rs`: batches, their Keccak-256 content
    digest (independent of arrival order, binding id and orders), and the
    orders in which orders are sorted.
  - `auction.rs`, `sums.rs`: the uniform clearing price and fill allocation,
    with conservation, limit and order-independence laws.
  - `consensus.rs`, `engine.rs`: validator sets, certificates, quorum
    intersection, and the attestation engine (membership, no equivocation,
    idempotence, finality, independence of batches).
  - `sequencer.rs`, `node.rs`, `limiter.rs`: the sequencer's commands and
    queries, sealing liveness, node configuration, and the `governor` rate
    limit.
- `tests/` — tests of the library.
- `app/` — the node binary: command line, HTTP/GraphQL API, sealing loop and
  observability.

## Design notes

- The engine keeps each batch's votes as a sequence of ballots (validator,
  digest, stake) with distinct validators, rather than maps keyed by digest and
  by validator. Those keys are structs whose order comes from derived `Ord`
  impls, which Verus does not read, so nothing could be proved of lookups in
  such maps; a map is kept only where the key is an integer (batch id → tally).
- The rate limit is a `governor` limiter built from the configured rate; the
  sequencer records that rate, and whether a given order is admitted depends on
  the clock.
- The node logs JSON and serves Prometheus metrics. It does not export
  OpenTelemetry traces: the OpenTelemetry crates are not part of this build.
