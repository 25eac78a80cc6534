[package]
name = "mqpkg"
version = "0.1.0"
edition = "2021"
publish = false

[dependencies]
semver = "*"
vfs = "*"
serde = { version = "*", features = ["derive"] }
serde_json = "*"
serde_yaml = "*"
serde_with = "*"
url = "*"
dunce = "*"
thiserror = "*"
reqwest = { version = "*", default-features = false, features = ["blocking", "json"] }
