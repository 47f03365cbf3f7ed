[package]
name = "updater"
version = "0.1.0"
edition = "2021"
publish = false

[dependencies]
rand = "0.7"
structopt = "0.2"
chrono = "0.4"
rayon = "1"
