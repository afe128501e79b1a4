[package]
name = "dorm_report"
version = "0.1.0"
edition = "2021"
publish = false

[dependencies]
anyhow = "1"
clap = { version = "4", features = ["derive"] }
csv = "1"
rust_xlsxwriter = "*"
serde = { version = "1", features = ["derive"] }
