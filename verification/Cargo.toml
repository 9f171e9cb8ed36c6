[package]
name = "mdbook-katex"
version = "0.1.0"
edition = "2021"
publish = false

[dependencies]
katex = "0.4"
clap = "4"
mdbook = { version = "0.4", default-features = false }
rayon = "1"
serde = { version = "1", features = ["derive"] }
serde_derive = "1"
serde_json = "1"
toml = "*"
tracing = "0.1"
tracing-subscriber = { version = "0.3", features = ["env-filter"] }
