[package]
name = "git_plan"
version = "0.1.0"
edition = "2021"
publish = false

[dependencies]
anyhow = "1"
clap = { version = "4", features = ["derive"] }
colored = "2"
git2 = { version = "0.19", default-features = false }
