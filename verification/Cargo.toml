[package]
name = "lego_elevation"
version = "0.1.0"
edition = "2021"
publish = false

[dependencies]
serde_json = "*"
minreq = { version = "*", features = ["https"] }
clap = { version = "*", features = ["derive"] }
indicatif = "*"
simplelog = "*"
log = "*"
anyhow = "*"
latlon = "*"
geo = "*"
