[package]
name = "spider"
version = "1.1.2"
edition = "2021"
publish = false

[dependencies]
url = "=2.5.8"
scraper = "=0.27.0"
reqwest = { version = "=0.12.28", default-features = false, features = ["blocking", "rustls-tls"] }
rayon = "=1.12.0"
robotparser-fork = "=0.11.0"
num_cpus = "=1.17.0"

[dev-dependencies]
hashbrown = "=0.17.1"
