[package]
name = "circuit_analysis"
version = "0.1.0"
edition = "2021"
publish = false

[dependencies]
num-bigint-dig = "=0.9.1"
num-traits = "=0.2.19"
priority-queue = "=2.7.0"
yaspar = "=2.7.2"
dashu = "=0.4.4"
indexmap = "=2.14.2"
serde = { version = "=1.0.229", features = ["derive"] }
serde_json = "=1.0.154"
clap = { version = "=4.6.7", features = ["derive"] }
