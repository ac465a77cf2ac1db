[package]
name = "fleece"
version = "0.1.0"
edition = "2021"
publish = false

[dependencies]
crossbeam-utils = "=0.8.23"
dashmap = "=6.2.1"
fixedstr = "=0.5.11"
folklore = "=0.8.0"
lazy_static = "=1.5.1"
log = "=0.4.35"
rangemap = "=1.8.0"
serde = { version = "=1.0.229", features = ["derive"] }
thiserror = "=2.0.21"
