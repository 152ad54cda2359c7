[package]
name = "wscrpt"
version = "0.1.0"
edition = "2021"
publish = false

[dependencies]
anyhow = "1"
clap = { version = "4", features = ["derive"] }
crossterm = "0.28"
libc = "0.2"
regex = "1"
ropey = "1.6"
serde = { version = "1", features = ["derive"] }
thiserror = "2"
toml = "0.8"
