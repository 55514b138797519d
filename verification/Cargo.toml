[package]
name = "jrsonnet_core"
version = "0.1.0"
edition = "2021"
publish = false

[dependencies]
clap = { version = "4", features = ["derive"] }
syn = { version = "1", features = ["full"] }
quote = "1"
proc-macro2 = "1"
