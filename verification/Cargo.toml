[package]
name = "oraiswap_staking"
version = "0.1.0"
edition = "2021"
publish = false

[dependencies]
cosmwasm-std = "1"
cosmwasm-storage = "1"
cosmwasm-schema = "1"
cw20 = "1"
