[package]
name = "hashcards"
version = "0.1.0"
edition = "2021"
publish = false

[dependencies]
clap = { version = "=4.6.7", features = ["derive"] }
open = "=5.4.4"
serde = { version = "=1.0.229", features = ["derive"] }
sha2 = "0.10"
tokio = { version = "=1.53.2", default-features = false, features = ["rt-multi-thread", "macros", "net", "io-util", "time", "signal"] }
toml = "=0.8.23"
