[package]
name = "rdma_rpc"
version = "0.1.0"
edition = "2021"
publish = false

[dependencies]
crossbeam = "0.8"
serde = { version = "1", features = ["derive"] }
bincode = "1"
rand = "0.8"
colored = "2"

[dev-dependencies]
