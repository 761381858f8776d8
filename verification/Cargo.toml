[package]
name = "beefy_light_client"
version = "0.1.0"
edition = "2021"
publish = false

[dependencies]
sp-core = "*"
sp-trie = "*"
rand = "*"
