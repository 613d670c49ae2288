[package]
name = "rs_wikix2parquet"
version = "0.1.0"
edition = "2021"
publish = false

[dependencies]
arrow = "=60.0.0"
parquet = { version = "=60.0.0", default-features = false, features = ["arrow", "snap", "lz4"] }

[dev-dependencies]
bytes = "=1.12.1"
