[package]
name = "repak"
version = "0.1.0"
edition = "2021"
publish = false

[dependencies]
flate2 = "=1.1.10"
ruzstd = "*"
sha3 = "=0.12.0"
thiserror = "=2.0.21"

[dev-dependencies]
leb128 = "=0.2.7"
