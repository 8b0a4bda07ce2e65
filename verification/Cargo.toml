[package]
name = "local_rag"
version = "0.1.0"
edition = "2021"
publish = false

[dependencies]
anyhow = "1"
clap = "4"
colored = "*"
ollama-rs = "*"
pdf-extract = "*"
regex = "1"
serde = { version = "1", features = ["derive"] }
serde_json = "1"
tokio = { version = "1", features = ["macros", "rt-multi-thread"] }
toml = "*"
uuid = { version = "1", features = ["v4"] }
walkdir = "2"
