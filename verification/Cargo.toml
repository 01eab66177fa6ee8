[package]
name = "changes_trie"
version = "0.1.0"
edition = "2021"
publish = false

[dependencies]
hash-db = "0.15.2"
keccak-hasher = "0.15.2"
memory-db = "0.18"
parity-codec = "=3.5.4"
reference-trie = "0.18.0"
trie-db = "0.18.1"
