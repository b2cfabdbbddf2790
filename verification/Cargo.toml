[package]
name = "ted_search"
version = "0.1.0"
edition = "2021"
publish = false

[dependencies]
memchr = "2"
rustc-hash = "2"
clap = { version = "4", features = ["derive"] }
colored = "*"
console = "*"
indicatif = "*"
thiserror = "*"
