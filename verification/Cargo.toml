[package]
name = "cycledit"
version = "0.1.0"
edition = "2021"
publish = false

[dependencies]
jiff = "0.2"
glob-match = "0.2"
gix = { version = "0.70", default-features = false }
clap = { version = "4", features = ["derive"] }
eyre = "0.6"
