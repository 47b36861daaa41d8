[package]
name = "srp_analysis"
version = "0.1.0"
edition = "2021"
publish = false

[dependencies]
chrono = "0.4"
env_logger = "0.8"
handlebars = "3.5"
open = "1"
serde = { version = "1", features = ["derive"] }
serde_json = "1"
structopt = "0.3"
