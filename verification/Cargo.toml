[package]
name = "block_cache"
version = "0.1.0"
edition = "2021"
publish = false

[dependencies]
async-stream = "0.3"
async-trait = "0.1"
bytes = "1"
foyer = "0.17"
futures = "0.3"
object_store = "0.11"
