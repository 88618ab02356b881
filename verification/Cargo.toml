[package]
name = "jot"
version = "0.1.0"
edition = "2021"
publish = false

[dependencies]
anyhow = "1"
chrono = { version = "0.4", default-features = false, features = ["std", "clock"] }
clap = "2"
colorful = "0.2"
console = "0.15"
dirs = "5"
itertools = "0.10"
notify-rust = "4"
prettytable-rs = "0.10"
rand = "0.8"
regex = "1"
scrawl = "1"
serde = { version = "1", features = ["derive"] }
textwrap = "0.16"
toml = "0.5"
