[package]
name = "planer"
version = "0.1.0"
edition = "2021"
publish = false

[dependencies]
chrono = { version = "=0.4.45", features = ["serde"] }
eframe = "=0.19.0"
rfd = { version = "0.14", default-features = false, features = ["xdg-portal", "async-std"] }
serde = { version = "=1.0.229", features = ["derive"] }
serde_json = "=1.0.154"
serde_with = { version = "=3.24.0", features = ["chrono_0_4"] }
uuid = { version = "=1.29.0", features = ["v4", "serde"] }
