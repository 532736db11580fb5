[package]
name = "resampler"
version = "0.1.0"
edition = "2021"
publish = false

[dependencies]
futures = "*"
futures-util = "*"
sqlx = { version = "*", default-features = false, features = ["runtime-tokio", "sqlite"] }
tokio = { version = "*", features = ["rt-multi-thread", "macros", "time", "io-util", "io-std"] }
