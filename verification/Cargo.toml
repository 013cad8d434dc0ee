[package]
name = "clippy_sync"
version = "0.1.0"
edition = "2021"
publish = false

[dependencies]
anyhow = "=1.0.104"
axum = { version = "=0.8.9", features = ["ws"] }
base64 = "=0.22.1"
chacha20poly1305 = "=0.10.1"
convex = "=0.10.4"
ed25519-dalek = { version = "=2.2.0", features = ["rand_core"] }
futures = "=0.3.34"
hkdf = "=0.12.4"
image = { version = "=0.25.10", default-features = false, features = ["png"] }
jsonwebtoken = { version = "=10.4.0", default-features = false, features = ["rust_crypto", "use_pem"] }
p256 = { version = "=0.13.2", features = ["ecdsa", "pkcs8"] }
rand_core = { version = "=0.6.4", features = ["getrandom"] }
reqwest = { version = "=0.12.28", default-features = false, features = ["json", "rustls-tls"] }
rmcp = { version = "=3.8.0", features = ["server", "macros", "transport-io", "schemars"] }
rusqlite = { version = "=0.41.1", features = ["bundled"] }
serde = { version = "=1.0.229", features = ["derive"] }
serde_jcs = "=0.2.0"
serde_json = { version = "=1.0.154", features = ["raw_value"] }
sha2 = "=0.10.9"
subtle = "=2.6.1"
tempfile = "=3.27.0"
time = { version = "=0.3.55", features = ["formatting", "parsing"] }
tokio = { version = "=1.54.1", features = ["full"] }
url = "=2.5.8"
uuid = { version = "=1.29.0", features = ["v4"] }
x25519-dalek = { version = "=2.0.1", features = ["static_secrets"] }
