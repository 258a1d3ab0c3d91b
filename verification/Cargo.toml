[package]
name = "janus"
version = "0.1.0"
edition = "2021"
publish = false

[dependencies]
curve25519-dalek = { version = "4.1", features = ["rand_core", "digest", "serde"] }
ed25519-dalek = { version = "2.1", features = ["rand_core", "batch", "serde"] }
sha2 = "0.10"
merlin = "3"
rand = "0.8"
rand_core = "0.6"
rand_chacha = "0.3"
rayon = "1"
zeroize = "1"
serde = { version = "1", features = ["derive"] }
bincode = "1"
postcard = { version = "1", features = ["alloc"] }
bulletproofs = "*"
