[package]
name = "execution_core"
version = "0.1.0"
edition = "2021"
publish = false

[dependencies]
sha3 = "0.10"
sha2 = "0.10"
ripemd = "0.1"
serde_json = "1"
