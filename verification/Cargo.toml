[package]
name = "rgb_node"
version = "0.1.0"
edition = "2021"
publish = false

[dependencies]
amplify = "=3.13.0"
bitcoin = "=0.28.1"
bp-core = "=0.8.1"
commit_verify = "=0.8.3"
descriptor-wallet = "=0.8.3"
microservices = { version = "=0.8.10", default-features = false, features = ["shell"] }
rgb-std = { version = "=0.8.2", default-features = false }
# No code names secp256k1. Held at this version it keeps `descriptors` at 0.8
# for `psbt`, which asks for any version from 0.7 on and builds with none
# later than 0.8.
secp256k1 = "=0.24.0"
serde = { version = "1", features = ["derive"] }
serde_yaml = "0.9"
