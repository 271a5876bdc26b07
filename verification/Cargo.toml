[package]
name = "zed_rmate_server"
version = "0.1.0"
edition = "2021"
publish = false

[dependencies]
async-process = "2"
clap = { version = "4", features = ["derive", "env"] }
dotenv = "0.15"
futures = "0.3"
notify = "6"
tempfile = "3"
tokio = { version = "1", features = ["full"] }
tracing = "0.1"
tracing-subscriber = "0.3"
