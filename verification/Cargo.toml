[package]
name = "monogirl"
version = "0.4.2"
edition = "2021"
publish = false

[dependencies]
sha2 = "=0.10.9"
hex = "=0.4.3"
serde_json = "=1.0.154"
clap = { version = "=4.6.7", features = ["derive"] }
thiserror = "=1.0.69"
anchor-lang = { version = "=0.29.0", features = ["init-if-needed"] }
