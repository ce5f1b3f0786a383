[package]
name = "crptls"
version = "0.1.0"
edition = "2021"
publish = false

[dependencies]
rust_decimal = "1"
chrono = "0.4"
chrono-tz = "0.8"
csv = "1"
structopt = "0.3"
dotenv = "0.15"
rustyline = "12"
ratatui = { version = "0.23", default-features = false, features = ["termion"] }
termion = "2"
