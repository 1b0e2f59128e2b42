[package]
name = "xunmi"
version = "0.1.0"
edition = "2021"
publish = false

[dependencies]
serde = { version = "=1.0.229", features = ["derive"] }
serde_json = "=1.0.151"
serde_yaml = "=0.9.34"
serde-xml-rs = "=0.5.1"
fast2s = "=0.3.1"
tantivy = "=0.26.2"
cang-jie = "=0.21.0"
jieba-rs = "=0.11.0"
crossbeam-channel = "=0.5.17"
tracing = "=0.1.44"
