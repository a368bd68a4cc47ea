[package]
name = "sailor"
version = "0.1.0"
edition = "2021"
publish = false

[dependencies]
nom = "8"
log = "0.4"
serde = { version = "1", features = ["derive"] }
clap = { version = "4", features = ["derive"] }
config = "*"
notify = "*"
crossbeam-channel = "0.5"
web-time = "1"
once_cell = "1"
deepsize = "0.2"
