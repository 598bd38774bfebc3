[package]
name = "trie_engine"
version = "0.1.0"
edition = "2021"
publish = false

[dependencies]
blake2 = "0.10"
hex = "0.4"
parity-scale-codec = "3"
