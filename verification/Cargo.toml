[package]
name = "redrob_vectordb"
version = "0.1.0"
edition = "2021"
publish = false

[dependencies]
url = "=2.5.8"
sha2 = "=0.10.9"
mime_guess = "=2.0.5"
quick-xml = "=0.38.4"
zip = { version = "=9.2.2", default-features = false, features = ["deflate"] }
pdf-extract = "=0.12.1"
serde = { version = "=1.0.229", features = ["derive"] }
serde_json = "=1.0.154"
anyhow = "=1.0.104"
