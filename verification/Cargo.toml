[package]
name = "lockfree_vector"
version = "0.1.0"
edition = "2021"
publish = false

[dependencies]
crossbeam-queue = "=0.3.14"
num = "0.4"
tokio = { version = "1", features = ["sync", "rt", "rt-multi-thread", "macros"] }
