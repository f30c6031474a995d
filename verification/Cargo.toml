[package]
name = "sendmail_into_mbox"
version = "0.1.0"
edition = "2021"
publish = false

[dependencies]
chrono = "*"
toml = "*"
fs2 = "*"
thiserror = "*"
serde = "*"
