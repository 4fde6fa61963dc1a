[package]
name = "simb"
version = "0.1.0"
edition = "2021"
publish = false

[dependencies]
alloy-rlp = "0.3"
argh = "0.1"
chrono = { version = "0.4", default-features = false, features = ["clock", "std"] }
ethereum-types = { version = "0.14", default-features = false, features = ["std"] }
fixed-hash = "0.8"
futures-util = "0.3"
hex = "0.4"
hyper = "0.14"
jsonrpsee = { version = "0.21", features = ["server"] }
libp2p = { version = "0.53", features = ["tokio", "tcp", "noise", "yamux", "macros", "gossipsub", "kad", "mdns", "request-response", "json", "ed25519"] }
once_cell = "1"
rand = "0.8"
redb = "1.5"
serde = { version = "1", features = ["derive"] }
serde_json = "1"
sha2 = "0.10"
thiserror = "1"
tokio = { version = "1", features = ["macros", "rt-multi-thread", "sync", "time"] }
tower = { version = "0.4", features = ["timeout", "util"] }
tower-http = { version = "0.4", features = ["auth", "sensitive-headers", "trace", "validate-request"] }
tracing = "0.1"
tracing-subscriber = { version = "0.3", default-features = false, features = ["fmt", "std"] }
