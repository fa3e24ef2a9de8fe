# consensus_lab

A discrete-event laboratory for Substrate-style consensus, written in Verus:
the protocol logic is executable Rust whose behaviour is stated in
`requires` / `ensures` contracts and proved.

## Layout

- `src/primitives/`: hashes, headers, extrinsics and blocks; their SCALE
  framing (encoding through `parity-scale-codec`, a proved header decoder),
  BLAKE3 identities and hex rendering.
- `src/collections/`: the maps and sets the protocol keeps, modelled by
  `Seq`/`Map`/`Set` views (an insertion-ordered map and set, and a
  byte-keyed map kept strictly sorted).
- `src/protocol/`: the state transition function and state root, the
  transaction pool, slot leadership and longest-chain fork choice, the node
  (import, re-org detection, proposal, GRANDPA-lite finality) and the run
  metrics.
- `src/network/`: the gossip simulator with per-node ingress queues and a
  mutable topology.
- `src/simulation.rs`: the three-validator experiment driver.
- `src/determinism.rs`: the proof that runs of one configuration agree.
- `tests/`: scenario tests run against the compiled library.
- `app/`: the program that runs the experiments and prints their reports.

## Laws proved

Among others: a re-org never reverts past the finalized height, and in a
block tree rooted at genesis the finalized block stays on the head's
chain; a chain extension is no re-org, and a block that ties with the head
does not displace it; finality only rises; importing a seen block changes nothing; the supermajority
threshold is the ceiling of 2N/3; the state root depends on the state's
contents only; a transfer conserves the two balances; the header encoding
is injective and decoding gives an encoded header back; gossip never
arrives before its hop latency; a run's result is reached by its slots'
phases, each as its callee contracts state, and two runs of one
configuration agree after every slot and return the same metrics
(`src/determinism.rs`); where parents stand below their children, the
finalized height stays at or below the head's.
