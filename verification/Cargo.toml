[package]
name = "rubypick"
version = "0.1.0"
edition = "2021"
publish = false

[dependencies]
clap = { version = "=4.6.7", features = ["derive"] }
octocrab = "=0.53.1"
tokio = { version = "=1.53.2", features = ["rt-multi-thread", "macros"] }
