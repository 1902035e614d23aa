[package]
name = "hues"
version = "0.1.0"
edition = "2021"
publish = false

[dependencies]
fixedbitset = "0.5"
petgraph = "*"
nauty-pet = "*"
rand = "0.9"
rand_xoshiro = "0.7"
rayon = "1"
log = "0.4"
serde = { version = "1", features = ["derive"] }
serde_json = "1"
toml = "*"
clap = { version = "4", features = ["derive"] }
ctrlc = "3"
chrono = "0.4"
env_logger = "0.11"
owo-colors = "4"
russcip = "*"
