[package]
name = "content"
version = "0.1.0"
edition = "2021"
publish = false

[dependencies]
yrs = "=0.28.0"
indextree = "=4.9.2"
bimap = "=0.6.3"
serde = { version = "=1.0.229", features = ["derive"] }
serde_json = "=1.0.154"
clap = { version = "=4.6.7", features = ["derive"] }
anyhow = "=1.0.104"
pulldown-cmark = "*"
