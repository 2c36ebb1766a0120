[package]
name = "blockgraph"
version = "0.1.0"
edition = "2021"
publish = false

[dependencies]
sha1 = "0.10"
chrono = "0.4"
serde = { version = "1", features = ["derive"] }
serde_json = "1"
dotenv = "0.15"
reqwest = { version = "0.12", default-features = false, features = ["blocking"] }
