[package]
name = "fsview"
version = "0.1.0"
edition = "2021"
publish = false

[dependencies]
rusqlite = { version = "0.31", features = ["bundled"] }
clap = { version = "3.2", features = ["derive"] }
log = "0.4"
log4rs = "1.2"
chrono = "0.4"
thousands = "0.2"
