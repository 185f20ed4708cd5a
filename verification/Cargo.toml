[package]
name = "gfotstaking"
version = "0.1.0"
edition = "2021"
publish = false

[dependencies]
cosmwasm-std = "1"
cw2 = "1"
cw20 = "1"
cw-storage-plus = "1"
cw-utils = "1"
hex = "0.4"
thiserror = "1"
serde = { version = "1", default-features = false, features = ["derive"] }
schemars = "0.8"
