[package]
name = "untitled_messenger"
version = "0.1.0"
edition = "2021"
publish = false

[dependencies]
argon2 = "=0.6.0"
chacha20poly1305 = "=0.11.0"
curve25519-dalek = "=4.1.3"
dirs = "=6.0.0"
ed25519-dalek = { version = "=2.2.0", features = ["rand_core"] }
hex = "=0.4.3"
hkdf = "=0.13.0"
hmac = "=0.13.0"
iced = { version = "*", default-features = false, features = ["tokio", "tiny-skia", "x11"] }
ml-kem = { version = "=0.3.4", features = ["getrandom"] }
postcard = { version = "=1.1.3", features = ["use-std"] }
rand = "=0.8.5"
rand_core = { version = "=0.6.4", features = ["getrandom"] }
rusqlite = { version = "=0.37.0", features = ["bundled"] }
serde = { version = "1", features = ["derive"] }
sha2 = "=0.11.1"
thiserror = "2"
tokio = { version = "1", features = ["full"] }
toml = "=0.9.8"
tracing = "0.1"
tracing-subscriber = "0.3"
x25519-dalek = { version = "=2.0.1", features = ["static_secrets"] }
