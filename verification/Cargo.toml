[package]
name = "bedfragment_ds"
version = "0.1.0"
edition = "2021"
publish = false

[dependencies]
rand = "*"
clap = { version = "*", features = ["derive"] }
indicatif = "*"
num_cpus = "*"
rayon = "*"
