[package]
name = "duck-hash-join"
version = "0.1.0"
edition = "2021"
publish = false

[dependencies]
anyhow = "1"
arrow = { version = "*", default-features = false }
clap = { version = "4", features = ["derive"] }
datafusion = { version = "*", default-features = false, features = ["parquet"] }
datafusion-functions = { version = "*", default-features = false }
futures = "0.3"
parquet = { version = "*", default-features = false, features = ["arrow", "snap"] }
rayon = "1"
tokio = { version = "1", features = ["macros", "rt-multi-thread"] }
