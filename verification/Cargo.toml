[package]
name = "czkawka_core"
version = "3.0.0"
edition = "2021"
publish = false

[dependencies]
blake3 = { version = "0.3", features = ["pure"] }
crossbeam-channel = "0.5"
directories-next = "2.0"
futures = "0.3"
humansize = "1.1"
rayon = "1"
