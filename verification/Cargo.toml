[package]
name = "mysticeti_vote"
version = "0.1.0"
edition = "2021"
publish = false

[dependencies]
ark-bls12-381 = "=0.5.0"
ark-crypto-primitives = { version = "=0.5.0", features = ["r1cs", "crh", "merkle_tree", "encryption", "snark", "sponge"] }
ark-ec = "=0.5.0"
ark-ed-on-bls12-381 = { version = "=0.5.0", features = ["r1cs"] }
ark-ff = "=0.5.0"
ark-groth16 = "=0.5.0"
ark-r1cs-std = "=0.5.0"
ark-relations = "=0.5.1"
ark-serialize = { version = "=0.5.0", features = ["derive"] }
ark-std = "=0.5.0"
base64 = "=0.22.1"
bincode = "=1.3.3"
chrono = "0.4"
clap = { version = "4", features = ["derive"] }
dirs-next = "2"
eyre = "0.6"
prometheus-parse = "=0.2.5"
rand = "=0.8.8"
rayon = "1"
rocksdb = { version = "0.22", default-features = false }
serde = { version = "1", features = ["derive"] }
serde_json = "1"
serde_yaml = "0.9"
ssh2 = "0.9"
tokio = { version = "1", features = ["full"] }
