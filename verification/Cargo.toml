[package]
name = "trie_db"
version = "0.1.0"
edition = "2021"
publish = false

[dependencies]
alloy-rlp = "*"
tiny-keccak = { version = "*", features = ["keccak"] }
