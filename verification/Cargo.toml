[package]
name = "md_wiki"
version = "0.1.0"
edition = "2021"
publish = false

[dependencies]
comrak = "=0.53.0"
pulldown-cmark = "=0.13.6"
serde = { version = "=1.0.229", features = ["derive"] }
serde_json = { version = "=1.0.154", features = ["preserve_order"] }
walkdir = "=2.5.0"
clap = { version = "=4.6.7", features = ["derive"] }
typed-arena = "=2.0.2"
