[package]
name = "ts_check"
version = "0.1.0"
edition = "2021"
publish = false

[dependencies]
itertools = "=0.15.0"
lalrpop-util = { version = "=0.23.2", default-features = false }
