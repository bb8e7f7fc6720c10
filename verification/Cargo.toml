[package]
name = "dush"
version = "0.1.0"
edition = "2021"
publish = false

[dependencies]
async-channel = "2"
clap = { version = "4", features = ["derive"] }
color-eyre = "0.6"
csv = "1"
diskus = "*"
gtk4 = { version = "*", features = ["v4_10"] }
humansize = "2"
serde = { version = "1", features = ["derive"] }
serde_json = "1"
