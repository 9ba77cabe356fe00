[package]
name = "npm-utils"
version = "0.5.0"
edition = "2021"
publish = false

[dependencies]
base64 = "0.22"
clap = { version = "4", features = ["derive"] }
flate2 = "1"
semver = "1"
serde_json = { version = "1", features = ["preserve_order"] }
sha2 = "0.10"
tar = "0.4"
time = { version = "0.3", features = ["formatting"] }
ureq = { version = "3", features = ["platform-verifier"] }
zip = { version = "2", default-features = false, features = ["deflate"] }
