[package]
name = "cosmic_ctl"
version = "0.1.0"
edition = "2021"
publish = false

[dependencies]
bracoxide = "*"
clap = { version = "4", features = ["derive"] }
glob = "0.3"
serde = { version = "1", features = ["derive"] }
serde_json = "1"
unescaper = "*"
walkdir = "2"
