[package]
name = "wiki_scraper"
version = "0.1.0"
edition = "2021"
publish = false

[dependencies]
anyhow = "1"
bimap = "0.6"
bzip2 = "0.4"
chrono = "0.4"
clap = { version = "4", features = ["derive"] }
console = "0.15"
crossbeam = "0.8"
flate2 = "1"
html-escape = "0.2"
indicatif = "0.17"
itertools = "0.12"
md5 = "0.7"
percent-encoding = "2"
pipe = "0.4"
rand = "0.8"
serde = { version = "1", features = ["derive"] }
serde_json = "1"
ureq = "2"
