[package]
name = "parge"
version = "0.1.0"
edition = "2021"
publish = false

[dependencies]
chrono = "=0.4.45"
clap = "=3.2.25"
color-eyre = "=0.6.5"
fern = { version = "=0.6.2", features = ["colored"] }
log = "=0.4.34"
