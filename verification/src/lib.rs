//! Electronic voting on a consensus protocol: ballots and their proofs, the rules
//! of the nodes, the tally, and benchmarks of all of it.
use vstd::prelude::*;

pub mod ballot;
pub mod block_handler;
mod clock;
pub mod commit_handler;
pub mod committee;
pub mod core_thread;
pub mod crypto_config;
pub mod curve;
pub mod datagen;
pub mod decimal;
pub mod dkg;
pub mod dkg_manager;
pub mod elgamal;
pub mod epoch_close;
pub mod field;
pub mod finalization_interpreter;
pub mod keymap;
pub mod mempool;
pub mod modular;
pub mod net_sync;
pub mod node_core;
pub mod nullifier;
pub mod orchestrator;
pub mod pairing;
pub mod poseidon;
pub mod syncer;
pub mod tally;
pub mod test_util;
pub mod text;
pub mod textmap;
pub mod threshold_clock;
pub mod transaction_aggregator;
pub mod transactions_generator;
pub mod types;
pub mod validator;
pub mod zkp;

verus! {

} // verus!
