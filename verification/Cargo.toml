[package]
name = "lsm_embedded"
version = "0.1.0"
edition = "2021"
publish = false

[dependencies]
crc32fast = "=1.5.4"
hashbrown = "=0.17.1"
wasm-bindgen = "=0.2.130"
