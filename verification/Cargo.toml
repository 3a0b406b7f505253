[package]
name = "privatium_core"
version = "0.1.0"
edition = "2021"
publish = false

[dependencies]
rand = "=0.10.3"
qrcode = { version = "=0.14.1", default-features = false }
serde_json = "=1.0.154"
jiff = "=0.2.39"
base64 = "=0.22.1"
ed25519-dalek = "=2.2.0"
serde = { version = "=1.0.229", features = ["derive"] }
thiserror = "=2.0.21"

[dev-dependencies]
mlua = { version = "*", features = ["lua54", "vendored"] }
