[package]
name = "dosdis"
version = "0.1.0"
edition = "2021"
publish = false

[dependencies]
iced-x86 = "=1.22.0"
serde = { version = "=1.0.229", features = ["derive"] }
serde_json = "=1.0.154"
toml = "=1.1.8"
anyhow = "=1.0.104"
argh = "=0.1.19"
tokio = { version = "=1.54.1", features = ["full"] }
axum = "=0.8.9"
tower-http = { version = "=0.7.1", features = ["fs"] }
openrouter-rs = "=0.23.0"
schemars = "=1.2.3"
futures-util = "=0.3.34"
indoc = "=2.0.8"
axum-vite = "*"
ts-rs = "*"
serde_with = "*"
