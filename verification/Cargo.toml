[package]
name = "cliplot"
version = "0.1.0"
edition = "2021"
publish = false

[dependencies]
chrono = "0.4"
clap = { version = "4", features = ["derive"] }
clap-verbosity-flag = "2"
csv = "1"
iced = { version = "0.9", default-features = false, features = ["glow", "canvas", "tokio"] }
log = "0.4"
plotters = { version = "0.3", default-features = false, features = ["line_series"] }
plotters-iced = "0.8"
regex = "1"
simplelog = "0.12"
tokio = { version = "1", features = ["io-std", "io-util"] }
