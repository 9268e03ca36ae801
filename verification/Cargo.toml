[package]
name = "interlock"
version = "0.0.1"
edition = "2021"
publish = false

[dependencies]
futures = "0.3"
lock_api = "0.4"
thiserror = "1"
