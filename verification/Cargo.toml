[package]
name = "theory"
version = "0.1.0"
edition = "2021"
publish = false

[dependencies]
flate2 = "1"
leb128 = "0.2"
lru = "*"
lz4_flex = "*"
thiserror = "1"
tinyvec = { version = "1", features = ["alloc"] }
