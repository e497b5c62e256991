[package]
name = "mb_tool"
version = "0.1.0"
edition = "2021"
publish = false

[dependencies]
bytes = "=1.12.1"
clap = { version = "=4.6.7", features = ["derive"] }
escaper = "=0.1.1"
futures = "=0.3.34"
futures-util = "=0.3.34"
handlebars = { version = "=6.4.4", features = ["rust-embed"] }
http-body-util = "=0.1.5"
hyper = { version = "=1.12.0", features = ["http1", "server"] }
hyper-tungstenite = "=0.30.0"
hyper-util = { version = "=0.1.21", features = ["tokio"] }
log = "=0.4.34"
roxmltree = "=0.21.1"
rust-embed = "=8.13.0"
serde = { version = "=1.0.229", features = ["derive"] }
serde_json = "=1.0.151"
tokio = { version = "=1.53.2", features = ["full"] }
tokio-modbus = { version = "=0.17.0", features = ["rtu-server", "tcp-server"] }
tokio-serial = "=5.5.0"
tracing-subscriber = "=0.3.23"
tungstenite = "=0.30.0"
