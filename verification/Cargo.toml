[package]
name = "hyper_markdown_server"
version = "0.1.0"
edition = "2021"
publish = false

[dependencies]
url-escape = "*"
pulldown-cmark = "*"
mime_guess = "2"
walkdir = "2"
hyper = { version = "0.14", features = ["full"] }
tokio = { version = "1", features = ["full"] }
tokio-util = { version = "0.7", features = ["codec"] }
tera = "1"
clap = { version = "4", features = ["derive"] }
serde = { version = "1", features = ["derive"] }
