[package]
name = "big_bucks"
version = "0.1.0"
edition = "2021"
publish = false

[dependencies]
reqwest = { version = "0.12", default-features = false }
serde = { version = "1", features = ["derive"] }
serde_json = "1"
ndarray = "0.16"
ndarray-linalg = "0.17"
statrs = "*"
tokio = { version = "1", features = ["full"] }
tokio-stream = "*"
kraken-async-rs = "*"
num-traits = "0.2"
log = "0.4"
tracing = "0.1"
tracing-subscriber = "0.3"
tracing-log = "0.2"
dotenv = "0.15"
plotters = { version = "0.3", default-features = false, features = ["bitmap_backend", "bitmap_encoder", "line_series", "area_series", "histogram", "ab_glyph"] }
