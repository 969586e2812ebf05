[package]
name = "sysadmin"
version = "0.1.0"
edition = "2021"
publish = false

[dependencies]
regex = "1"
serde = { version = "1", features = ["derive"] }
serde_json = "1"
clap = { version = "4", features = ["derive"] }
chrono = "0.4"
colored = "2"
confy = "0.6"
shellexpand = "3"
log = "0.4"
futures = "0.3"
async-process = "2"
reqwest = { version = "0.12", default-features = false }
