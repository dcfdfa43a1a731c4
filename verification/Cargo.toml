[package]
name = "keyquorum"
version = "0.1.0"
edition = "2021"
publish = false

[dependencies]
aes-gcm = "0.10"
argon2 = "0.5"
axum = "0.8"
base64 = "0.22"
blahaj = "=0.6.0"
clap = { version = "4", features = ["derive"] }
crypto_box = { version = "0.9", features = ["seal"] }
ed25519-dalek = { version = "2", features = ["rand_core"] }
hex = "0.4"
libc = "0.2"
rand = "0.8"
rpassword = "7"
rusqlite = { version = "0.32", features = ["bundled"] }
serde = { version = "1", features = ["derive"] }
serde_json = "1"
sha2 = "0.10"
tokio = { version = "1", features = ["full"] }
tower-http = { version = "0.6", features = ["trace"] }
tracing = "0.1"
tracing-subscriber = { version = "0.3", features = ["env-filter"] }
ureq = "2"
utoipa = { version = "5", features = ["axum_extras"] }
utoipa-swagger-ui = { version = "9", features = ["axum", "vendored"] }
x25519-dalek = "2"
zeroize = "1"
