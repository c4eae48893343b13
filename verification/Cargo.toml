[package]
name = "abnf_oracle"
version = "0.1.1"
edition = "2021"
publish = false

[dependencies]
clap = { version = "4", features = ["derive"] }
anyhow = "1"
