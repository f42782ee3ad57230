[package]
name = "panel_input"
version = "0.1.0"
edition = "2021"
publish = false

[dependencies]
i2cdev = "*"
serde = { version = "*", features = ["derive"] }
serde_yaml = "*"
