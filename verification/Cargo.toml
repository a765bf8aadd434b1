[package]
name = "must"
version = "0.1.0"
edition = "2021"
publish = false

[dependencies]
ena = "0.14"
clap = { version = "4", features = ["derive"] }
tokio = { version = "1", features = ["rt-multi-thread", "macros", "io-std"] }
tower-lsp = "0.20"
ariadne = "0.5"
line-index = "0.1"
lalrpop-util = "0.22"
