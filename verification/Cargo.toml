[package]
name = "aula_driver"
version = "0.1.0"
edition = "2021"
publish = false

[dependencies]
anyhow = "=1.0.104"
hidapi = { version = "=2.6.7", default-features = false, features = ["linux-native-basic-udev"] }
log = "=0.4.35"
serde = { version = "=1.0.229", features = ["derive"] }
toml = "=1.1.8"
