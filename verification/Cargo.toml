[package]
name = "currentcost"
version = "0.1.0"
edition = "2021"
publish = false

[dependencies]
chrono = "0.4"
fern = { version = "*", features = ["colored"] }
log = "0.4"
postgres = { version = "0.19", features = ["with-chrono-0_4"] }
roxmltree = "0.20"
serialport = { version = "4", default-features = false }
signal-hook = "0.3"
toml = "0.8"
