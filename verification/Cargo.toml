[package]
name = "kolmox"
version = "0.1.0"
edition = "2021"
publish = false

[dependencies]
brotli = "*"
zstd = "*"
scraper = "*"
clap = { version = "4", features = ["derive"] }
tracing = "*"
tracing-subscriber = "*"
rayon = "*"
indicatif = "*"
plotly = "*"
