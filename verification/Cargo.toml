[package]
name = "goose_roaming"
version = "0.1.0"
edition = "2021"
publish = false

[dependencies]
agent-client-protocol = { version = "5", default-features = false }
anyhow = "=1.0.104"
base64 = "=0.22.1"
chrono = { version = "=0.4.45", default-features = false, features = ["std"] }
clap = { version = "=4.6.7", default-features = false, features = ["std", "derive", "help"] }
futures = { version = "=0.3.34", default-features = false, features = ["std", "async-await"] }
iroh = { version = "=1.4.1", default-features = false, features = ["tls-ring"] }
rand = "=0.10.3"
serde = { version = "=1.0.229", features = ["derive"] }
serde_json = "=1.0.154"
sha2 = "=0.11.1"
tokio = { version = "=1.54.1", features = ["rt-multi-thread", "macros", "sync", "time", "io-util", "io-std", "net", "process", "signal", "fs"] }
tokio-util = { version = "=0.7.20", features = ["compat"] }
tracing = "=0.1.44"
wasm-bindgen = "=0.2.130"
wasm-bindgen-futures = "=0.4.80"
