[package]
name = "fgbo"
version = "0.1.0"
edition = "2021"
publish = false

[dependencies]
anyhow = "1"
axum = "0.8"
clap = { version = "4", features = ["derive"] }
crc32fast = "1"
flatgeobuf = { version = "6", default-features = false }
geo = "*"
geo-types = "0.7"
geozero = { version = "*", features = ["with-geo", "with-mvt", "with-geojson"] }
thiserror = "2"
tokio = { version = "1", features = ["rt-multi-thread", "net"] }
tracing = "0.1"
tracing-subscriber = "0.3"
ureq = "3"
wasm-bindgen = "0.2"
