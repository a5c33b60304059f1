[package]
name = "sequential-storage-buffer"
version = "0.1.0"
edition = "2021"
publish = false

[dependencies]
sequential-storage = "=7.1.0"
embedded-storage-async = "=0.4.2"
embassy-sync = "=0.8.0"

[dev-dependencies]
sequential-storage = { version = "=7.1.0", features = ["_test"] }
critical-section = { version = "=1.2.0", features = ["std"] }
futures = "=0.3.34"
