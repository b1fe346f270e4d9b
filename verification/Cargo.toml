[package]
name = "file_update_monitor"
version = "0.1.0"
edition = "2021"
publish = false

[dependencies]
notify = "*"
futures = "*"
