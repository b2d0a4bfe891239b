# mysticeti_vote

A verified library for electronic voting on a consensus protocol: the
cryptography of ballots, the rules by which nodes accept, order and finalise them,
the tally, the generation of benchmark data, and the orchestration of testbeds.
The executable code is Rust; its behaviour is stated in contracts that Verus
proves.

## Layout

- `src/` is the library. It is verified, up to the calls into other crates (see below).
  - Arithmetic and curves: `modular`, `field`, `curve`, `pairing`, `poseidon`.
  - Keys and ballots: `elgamal`, `dkg`, `dkg_manager`, `ballot`, `zkp`,
    `crypto_config`.
  - Nodes: `types`, `committee`, `threshold_clock`, `node_core`, `core_thread`, `syncer`,
    `block_handler`, `commit_handler`, `finalization_interpreter`,
    `transaction_aggregator`, `mempool`, `nullifier`, `net_sync`, `epoch_close`,
    `tally`, `validator`, `transactions_generator`.
  - Benchmarks: `datagen`, `orchestrator` (settings, testbed, provider, ssh,
    protocol, measurements).
  - Helpers: `text`, `decimal`, `textmap`, `keymap`, `test_util`.
- `tests/` runs the library on concrete values.
- `app/` holds the programs around the library: the command line, files, network
  connections, the proof system's circuit, and floating point.

## What is proved and what is trusted

Each public function states what it returns for every input that it accepts, and
when it fails. Statements about several functions at once are public proof
functions whose names begin with `law_`: for example that a tally counts the votes
that were cast (`tally::law_tally_counts_votes`), that finality is permanent
(`finalization_interpreter::law_finality_is_permanent`), or that the
participants of a key generation end with the same key, of which enough of them hold
the secret together (`dkg_manager::law_key_generation`).

Calls into other crates stand behind small functions marked
`#[verifier::external_body]`. The comment above each of them says which function
it calls and what is believed of it.
