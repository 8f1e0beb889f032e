[package]
name = "videosrv"
version = "0.1.0"
edition = "2021"
publish = false

[dependencies]
actix-cors = "0.6"
actix-files = "0.6"
actix-web = "4"
anyhow = "1"
chrono = { version = "0.4", features = ["serde"] }
dotenv = "0.15"
env_logger = "0.10"
gstreamer = "0.19"
gstreamer-app = "0.19"
itertools = "0.10"
serde = { version = "1", features = ["derive"] }
serde_json = "1"
serde_yaml = "0.9"
structopt = "0.3"
tokio = { version = "1", features = ["fs", "macros", "rt", "sync", "time"] }
tracing = "0.1"
walkdir = "2"
