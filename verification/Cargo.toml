[package]
name = "process_mining"
version = "0.1.0"
edition = "2021"
publish = false

[dependencies]
hashbag = "=0.1.13"
uuid = { version = "=1.29.0", features = ["v4"] }
graphviz-rust = "=0.9.9"
lazy_static = "=1.5.1"
