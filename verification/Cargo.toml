[package]
name = "session_ratchet"
version = "0.1.0"
edition = "2021"
publish = false

[dependencies]
hkdf = "=0.12.4"
hmac = "=0.12.1"
sha2 = "=0.10.9"
x25519-dalek = "=2.0.1"
zeroize = "=1.9.1"
async-trait = "=0.1.92"
futures-util = "=0.3.34"
hyper = { version = "=0.14.32", features = ["client", "http2"] }
tokio = { version = "=1.54.1", features = ["rt", "time", "macros", "net", "sync"] }
rand_core = { version = "=0.6.4", features = ["getrandom"] }
