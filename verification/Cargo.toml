[package]
name = "united_flarmnet"
version = "0.1.0"
edition = "2021"
publish = false

[dependencies]
anyhow = "*"
deunicode = "*"
encoding_rs = "*"
flarmnet = "*"
serde = { version = "*", features = ["derive"] }
serde_json = "*"
time = { version = "*", features = ["serde-well-known", "parsing", "formatting"] }
ureq = { version = "*", features = ["json"] }
