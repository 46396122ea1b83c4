[package]
name = "zendb_storage"
version = "0.1.0"
edition = "2021"
publish = false

[dependencies]
bincode = "2"
hashbrown = { version = "0.15", features = ["raw-entry"] }
memmap2 = "0.9"
parking_lot = "0.12"
arc-swap = "1"
log = "0.4"
