[package]
name = "poker_equity"
version = "0.1.0"
edition = "2021"
publish = false

[dependencies]
rs_poker = { version = "=4.1.0", default-features = false }
rand = "=0.9.5"
getrandom = "=0.3.4"
