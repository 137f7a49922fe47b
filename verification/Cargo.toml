[package]
name = "markdown_links"
version = "0.1.0"
edition = "2021"
publish = false

[dependencies]
comrak = { version = "0.24", default-features = false }
clap = { version = "4", features = ["derive"] }
csv = "1"
serde = { version = "1", features = ["derive"] }
serde_json = "1"
