[package]
name = "parscript"
version = "0.1.0"
edition = "2021"
publish = false

[dependencies]
petgraph = "0.6"
coarsetime = "0.1"
nohash-hasher = "0.2"
ustr = "1"
rustc-hash = "2"
parking_lot = "0.12"
log = "0.4"
colog = "1"
serde_json = "1"
smartcore = "0.4"
lightgbm3 = "1"
clap = { version = "4", features = ["derive"] }
