[package]
name = "company_analyzer"
version = "0.1.0"
edition = "2021"
publish = false

[dependencies]
quick-xml = "0.31"
zip = { version = "0.6", default-features = false, features = ["deflate"] }
serde_json = "1"
comfy-table = "7"
reqwest = { version = "0.11", default-features = false, features = ["blocking", "json", "rustls-tls"] }
