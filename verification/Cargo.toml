[package]
name = "strata"
version = "0.1.0"
edition = "2021"
publish = false

[dependencies]
async-trait = "0.1"
bincode = "1.3"
bytes = "1"
crc32fast = "1"
futures = "0.3"
js-sys = "0.3"
parking_lot = "0.12"
prost = "0.13"
rand = "0.8"
roaring = "0.10"
serde = { version = "1", features = ["derive"] }
tokio = { version = "1", features = ["rt-multi-thread", "sync", "time", "macros", "net"] }
tonic = "0.12"
tonic-web-wasm-client = "0.6"
wasm-bindgen = "0.2"
