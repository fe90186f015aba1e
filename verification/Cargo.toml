[package]
name = "varuna"
version = "0.1.0"
edition = "2021"
publish = false

[dependencies]
anyhow = "=1.0.104"
axum = { version = "=0.7.9", features = ["ws"] }
futures = "=0.3.34"
hound = "=3.5.1"
kstring = "=2.0.2"
nalgebra = "=0.32.6"
ndarray = "=0.15.6"
realfft = "=3.5.1"
serde = { version = "=1.0.229", features = ["derive"] }
serde_json = "=1.0.154"
thiserror = "=1.0.69"
tokio = { version = "=1.54.1", features = ["full"] }
tower-http = { version = "=0.5.2", features = ["fs", "cors"] }
tracing = "=0.1.44"
tracing-subscriber = { version = "=0.3.23", features = ["env-filter"] }
tract-onnx = "=0.21.19"
webbrowser = "=1.2.6"
