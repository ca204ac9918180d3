[package]
name = "bigtools"
version = "0.1.0"
edition = "2021"
publish = false

[dependencies]
byteordered = "*"
crossbeam = "*"
flate2 = "1"
futures = { version = "0.3", features = ["thread-pool"] }
