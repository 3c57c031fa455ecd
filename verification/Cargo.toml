[package]
name = "corro_sync"
version = "0.1.0"
edition = "2021"
publish = false

[dependencies]
bytes = "=1.12.1"
compact_str = "0.7"
eyre = "0.6"
foca = "=0.16.0"
futures = "=0.3.34"
metrics = "=0.22.4"
opentelemetry = "=0.21.0"
quinn = "=0.10.2"
quinn-plaintext = "0.2"
rand = "=0.8.8"
rangemap = "=1.8.0"
rusqlite = { version = "=0.30.0", features = ["bundled"] }
rustls = { version = "=0.21.12", features = ["dangerous_configuration"] }
rustls-pemfile = "=1.0.4"
speedy = "=0.8.7"
thiserror = "1"
tokio = { version = "=1.54.1", features = ["full"] }
tokio-stream = { version = "=0.1.19", features = ["sync", "time"] }
tokio-util = { version = "=0.7.20", features = ["codec"] }
tracing = "0.1"
tracing-opentelemetry = "=0.22.0"
uhlc = "=0.6.3"
