[package]
name = "patchpal"
version = "0.1.0"
edition = "2021"
publish = false

[dependencies]
anyhow = "*"
clap = { version = "*", features = ["derive"] }
hostname = "*"
log = "*"
regex = "*"
reqwest = { version = "*", default-features = false, features = ["blocking", "json"] }
serde = { version = "*", features = ["derive"] }
serde_json = "*"
sha2 = "*"
shellexpand = "*"
uuid = "*"
