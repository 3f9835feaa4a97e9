[package]
name = "tux"
version = "0.1.0"
edition = "2021"
publish = false

[dependencies]
path-clean = "=1.0.1"
reqwest = { version = "=0.13.5", default-features = false, features = ["blocking"] }
tempfile = "=3.27.0"
tokio = { version = "=1.53.2", features = ["net", "rt-multi-thread", "sync"] }
warp = { version = "=0.4.3", features = ["server"] }
