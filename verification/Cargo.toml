[package]
name = "rz_rust_os"
version = "0.1.0"
edition = "2021"
publish = false

[dependencies]
conquer-once = "*"
crossbeam-queue = "*"
futures-util = "*"
pc-keyboard = "*"
spin = "*"
