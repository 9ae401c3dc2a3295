[package]
name = "modem"
version = "0.1.0"
edition = "2021"
publish = false

[dependencies]
anyhow = "*"
clap = { version = "*", features = ["derive"] }
cpal = "*"
crossbeam-channel = "*"
nix = { version = "*", features = ["term"] }

[dev-dependencies]
rand = "=0.8.5"
rand_distr = "=0.4.3"
rand_pcg = "=0.3.1"
