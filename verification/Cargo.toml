[package]
name = "arena_contracts"
version = "0.1.0"
edition = "2021"
publish = false

[dependencies]
cosmwasm-std = { version = "=2.3.6", features = ["cosmwasm_1_2"] }
cosmwasm-schema = "=2.3.6"
cw-storage-plus = "=2.0.0"
cw-utils = "=2.0.0"
cw2 = "=2.0.0"
thiserror = "=1.0.69"
sha2 = "=0.10.9"
cw-ownable = "2"
