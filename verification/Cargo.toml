[package]
name = "didactic"
version = "0.1.0"
edition = "2021"
publish = false

[dependencies]
typst = "=0.15.1"
typst-as-lib = { version = "=0.17.0", features = ["typst-html"] }
typst-html = "=0.15.1"
typst-assets = { version = "=0.15.1", features = ["fonts"] }
regex = "=1.13.1"
scraper = "=0.27.0"
xxhash-rust = { version = "=0.8.19", features = ["xxh3"] }
serde = { version = "=1.0.229", features = ["derive"] }
toml = "=0.8.23"
tera = { version = "=2.4.0", default-features = false }
grass = { version = "=0.13.4", default-features = false }
clap = { version = "=4.6.7", features = ["derive"] }
log = "=0.4.34"
env_logger = { version = "=0.11.11", default-features = false }
