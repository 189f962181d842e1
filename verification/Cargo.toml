[package]
name = "groceries_bmesh_core"
version = "0.1.0"
edition = "2021"
publish = false

[dependencies]
crdts = "=7.3.2"
flate2 = "=1.1.10"
rand = "=0.10.3"
sha2 = "=0.11.1"
serde = { version = "=1.0.229", features = ["derive"] }
serde_json = "=1.0.154"
postcard = { version = "=1.1.3", features = ["use-std"] }
tokio = { version = "=1.54.1", features = ["fs", "sync", "time", "rt", "macros"] }
anyhow = "=1.0.104"
tracing = "=0.1.44"
iroh = { version = "=1.4.1", default-features = false, features = ["tls-ring"] }
iroh-gossip = { version = "=0.101.0", default-features = false, features = ["net"] }
n0-future = "=0.3.2"
