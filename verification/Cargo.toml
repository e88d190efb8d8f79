[package]
name = "hyphenation_trie"
version = "0.1.0"
edition = "2021"
publish = false

[dependencies]
fst = "0.3"
serde = "1"
