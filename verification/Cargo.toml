[package]
name = "uint_codec"
version = "0.1.0"
edition = "2021"
publish = false

[dependencies]
parity-scale-codec = { version = "3", features = ["max-encoded-len"] }
fastrlp = "0.3"

[dev-dependencies]
rlp = "0.5"
