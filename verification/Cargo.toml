[package]
name = "pool_sync"
version = "0.1.0"
edition = "2021"
publish = false

[dependencies]
fastrand = "*"
alloy-primitives = "*"
alloy-provider = { version = "*", default-features = false, features = ["reqwest"] }
alloy-rpc-types = { version = "*", default-features = false, features = ["eth"] }
tokio = { version = "*", default-features = false, features = ["rt-multi-thread", "time"] }
