[package]
name = "hust"
version = "0.1.0"
edition = "2021"
publish = false

[dependencies]
cidr-utils = "=0.5.11"
memchr = "=2.8.3"
chrono = "=0.4.45"
clap = { version = "=3.2.25", features = ["derive"] }
memmap2 = "=0.9.12"
rayon = "=1.12.0"
reqwest = { version = "=0.11.27", features = ["blocking", "json"] }
