[package]
name = "wicked-overlay"
version = "0.12.0"
edition = "2021"
publish = false

[dependencies]
rusqlite = { version = "=0.32.1", features = ["bundled"] }
tokio = { version = "=1.54.1", features = ["rt-multi-thread"] }
wicked-estate-core = "=0.12.0"

[dev-dependencies]
wicked-estate-store = { version = "=0.12.0", features = ["pool"] }
tempfile = "=3.27.0"
