[package]
name = "how_core"
version = "0.1.0"
edition = "2021"
publish = false

[dependencies]
hdk = "=0.1.6"
hdi = "=0.2.6"
holo_hash = "=0.1.6"
thiserror = "=1.0.69"
# Held back for rmp-serde 0.15, which hdk brings in and which does not
# build against a later rmp.
rmp = "=0.8.11"
serde = { version = "=1.0.166", features = ["derive"] }
