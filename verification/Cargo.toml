[package]
name = "yamusic"
version = "0.1.0"
edition = "2021"
publish = false

[dependencies]
serde = { version = "=1.0.229", features = ["derive"] }
serde_json = "=1.0.154"
toml = "=1.1.8"
unicode-width = "=0.2.3"
directories = "=6.0.0"
yandex-music = "=0.7.0"
mpris-server = "=0.11.0"
tracing = "=0.1.44"
