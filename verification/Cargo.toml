[package]
name = "cargo-saddle"
version = "0.1.0"
edition = "2021"
publish = false

[dependencies]
anyhow = "1"
bstr = "1"
clap = { version = "4", features = ["derive"] }
color-backtrace = "0.6"
memchr = "2"
petgraph = "0.6"
rustc-hash = "1"
