[package]
name = "chouette"
version = "0.1.0"
edition = "2021"
publish = false

[dependencies]
base64 = "0.13.1"
bcrypt = "0.15"
clap = "4"
colored = "2"
diesel = { version = "2", features = ["postgres"] }
imap = "2"
lettre = "0.11"
native-tls = "0.2"
rand = "0.8"
rocket = { version = "0.5", features = ["secrets"] }
rpassword = "7"
serde = { version = "1", features = ["derive"] }
serde_json = "1"
toml = "0.8"
