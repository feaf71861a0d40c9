[package]
name = "puffin"
version = "0.19.1"
edition = "2021"
publish = false

[dependencies]
byteorder = "=1.5.0"
bincode = "=1.3.3"
serde = { version = "=1.0.229", features = ["derive"] }
lz4_flex = "=0.11.6"
zstd = "0.13"
parking_lot = "=0.12.5"
once_cell = "=1.21.4"
anyhow = "=1.0.104"
natord = "=1.0.9"
