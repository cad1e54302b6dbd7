[package]
name = "content_tracker"
version = "0.1.0"
edition = "2021"
publish = false

[dependencies]
anyhow = "1"
clap = { version = "=4.5.61", default-features = false, features = ["std", "derive", "help", "usage"] }
iroh-base = { version = "=0.14.0", features = ["key"] }
iroh-bytes = { version = "=0.14.0", default-features = false }
