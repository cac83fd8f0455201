[package]
name = "mapdraw"
version = "0.1.0"
edition = "2021"
publish = false

[dependencies]
proj5 = { version = "=0.1.7", features = ["multithreading"] }
serde = { version = "=1.0.229", features = ["derive"] }
serde_json = "=1.0.154"
