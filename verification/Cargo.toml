[package]
name = "skyup"
version = "0.1.0"
edition = "2021"
publish = false

[dependencies]
serde = { version = "*", features = ["derive"] }
serde_json = "*"
sysinfo = "*"
reqwest = { version = "*", default-features = false, features = ["blocking"] }

[dev-dependencies]
tar = "*"
