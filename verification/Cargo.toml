[package]
name = "acir_checker"
version = "0.1.0"
edition = "2021"
publish = false

[dependencies]
acir = "1.0.0"
num-bigint = "0.4"
rsmt2 = "0.16"
anyhow = "1"
clap = { version = "4", features = ["derive"] }
termcolor = "1"
thiserror = "2"
