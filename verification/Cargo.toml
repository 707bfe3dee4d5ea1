[package]
name = "sema-storage"
version = "0.1.0"
edition = "2021"
publish = false

[dependencies]
kameo = "0.20"
rkyv = "0.8"
thiserror = "2"
tokio = { version = "1", features = ["io-util", "macros", "net", "rt-multi-thread", "sync"] }
