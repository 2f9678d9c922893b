[package]
name = "amethystate"
version = "0.1.0"
edition = "2021"
publish = false

[dependencies]
serde = { version = "=1.0.229", features = ["derive"] }
serde_json = "=1.0.154"
uuid = { version = "=1.29.0", features = ["v4"] }
tracing = "=0.1.44"
toml_edit = { version = "=0.22.27", features = ["serde"] }
etcetera = "=0.11.0"
indexmap = "=2.14.2"
directories = "*"
