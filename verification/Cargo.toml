[package]
name = "md_image_cache"
version = "0.1.0"
edition = "2021"
publish = false

[dependencies]
sha1 = "*"
reqwest = { version = "*", default-features = false }
tokio = { version = "*", features = ["rt-multi-thread", "macros", "sync"] }
glob = "*"
clap = { version = "*", features = ["derive"] }
tracing = "*"
tracing-subscriber = "*"
