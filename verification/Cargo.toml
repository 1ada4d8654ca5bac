[package]
name = "process_tree"
version = "0.1.0"
edition = "2021"
publish = false

[dependencies]
libc = "0.2"
smallvec = "1"
tokio = { version = "1", features = ["time"] }
