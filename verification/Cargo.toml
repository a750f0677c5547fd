[package]
name = "hassan"
version = "0.1.0"
edition = "2021"
publish = false

[dependencies]
blake3 = "1"
fips204 = "0.4"
fips205 = "0.4"
num-bigint = "0.4"
hex = "0.4"
serde = { version = "1", features = ["derive"] }
serde_json = "1"
bincode = "1"
rand = "0.8"
rayon = "1"
argon2 = "0.5"
chacha20poly1305 = "0.10"
