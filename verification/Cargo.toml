[package]
name = "ledger_storage"
version = "0.1.0"
edition = "2021"
publish = false

[dependencies]
blake2b-rs = "0.2.0"
sparse-merkle-tree = "0.6.1"
borsh = "1.5.7"
rayon = "1.10.0"
