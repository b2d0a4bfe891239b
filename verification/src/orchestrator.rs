//! The orchestration of benchmarks on a testbed of remote machines.
pub mod aws;
pub mod measurements;
pub mod number;
pub mod protocol;
pub mod settings;
pub mod ssh;
pub mod testbed;
