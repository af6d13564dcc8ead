[package]
name = "sex_cli"
version = "0.1.0"
edition = "2021"
publish = false

[dependencies]
anyhow = "=1.0.104"
base64 = "=0.23.1"
clap = { version = "*", features = ["derive"] }
clap_complete = "*"
crossterm = "=0.29.0"
dirs = "=7.0.0"
dotenvy = "*"
keyring = "=4.2.0"
rand = "=0.10.3"
reqwest = { version = "*", default-features = false, features = ["blocking", "json", "rustls-tls"] }
rpassword = "*"
serde = { version = "*", features = ["derive"] }
serde_json = "*"
sodiumoxide = "=0.2.7"
urlencoding = "*"
