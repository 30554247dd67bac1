[package]
name = "disko"
version = "0.1.0"
edition = "2021"
publish = false

[dependencies]
anyhow = "1"
clap = { version = "4", features = ["derive"] }
crossterm = "0.29"
dirs = "6"
jiff = "0.2"
libc = "0.2"
ratatui = "0.30"
rayon = "1"
serde = { version = "1", features = ["derive"] }
serde_json = "1"
sysinfo = "*"
unicode-width = "0.2"
