[package]
name = "phrasegen"
version = "0.1.0"
edition = "2021"
publish = false

[dependencies]
unicode-normalization = "=0.1.26"
unicode-segmentation = "=1.13.3"
anyhow = "=1.0.104"
clap = { version = "=4.6.7", features = ["derive"] }
crossterm = "=0.28.1"
csv = "=1.4.0"
serde = { version = "=1.0.229", features = ["derive"] }
serde_json = "=1.0.154"
rand = "=0.9.5"
rand_chacha = "=0.9.0"
thiserror = "=2.0.21"
flate2 = "=1.1.10"
tar = "=0.4.46"
ureq = { version = "=2.12.1", default-features = false }
zip = { version = "=2.6.1", default-features = false, features = ["deflate"] }
rand_regex = "=0.18.1"
pare = "=0.2.3"
