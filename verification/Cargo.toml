[package]
name = "dataset_report"
version = "0.1.0"
edition = "2021"
publish = false

[dependencies]
anyhow = "=1.0.104"
chrono = "=0.4.45"
nalgebra = "=0.35.0"
plotters = "=0.3.7"
rand = "=0.8.8"
serde = { version = "=1.0.229", features = ["derive"] }
serde_json = "=1.0.154"
statrs = "=0.19.1"
