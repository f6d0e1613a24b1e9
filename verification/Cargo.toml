[package]
name = "messenger_core"
version = "0.1.0"
edition = "2021"
publish = false

[dependencies]
uuid = { version = "=1.27.0", features = ["v4"] }
chrono = "=0.4.45"
tokio = { version = "=1.53.2", features = ["macros", "rt-multi-thread", "sync", "time"] }
warp = { version = "=0.4.3", features = ["server", "websocket"] }
futures = "=0.3.34"
dotenv = "=0.15.0"
env_logger = "=0.11.11"

[dev-dependencies]
serde_json = "=1.0.151"
