[package]
name = "small_tools"
version = "0.1.0"
edition = "2021"
publish = false

[dependencies]
rand = "=0.9.5"
tokio = { version = "=1.54.1", features = ["full"] }
axum = "=0.8.9"
rig-core = "=0.38.2"
tree-parser = "=0.1.4"
