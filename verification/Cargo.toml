[package]
name = "bounded_knapsack"
version = "0.1.0"
edition = "2021"
publish = false

[dependencies]
anyhow = "1"
log = "0.4"
serde = { version = "1", features = ["derive"] }
simplelog = "0.10"
structopt = "0.3"
clap-verbosity-flag = "0.3"
toml = "0.5"
