[package]
name = "frecenfile"
version = "0.1.0"
edition = "2021"
publish = false

[dependencies]
git2 = { version = "*", default-features = false }
sled = "*"
sha2 = "*"
hex = "*"
chrono = "*"
rayon = "*"
directories = "*"
clap = { version = "*", features = ["derive"] }
anyhow = "*"

[dev-dependencies]
tempfile = "*"
