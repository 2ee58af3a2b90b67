[package]
name = "trie_minify"
version = "0.1.0"
edition = "2021"
publish = false

[dependencies]
indexmap = "2.2.6"
