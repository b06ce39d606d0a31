[package]
name = "faritany"
version = "0.1.0"
edition = "2021"
publish = false

[dependencies]
chrono = { version = "=0.4.45", default-features = false, features = ["clock", "std"] }
sha256 = { version = "=1.6.0", default-features = false }
url = "=2.5.8"
serde = { version = "=1.0.229", features = ["derive"] }
serde_json = "=1.0.154"
uuid = { version = "=1.29.1", features = ["v4", "serde"] }
actix = "=0.13.5"
actix-web = { version = "=4.18.1", default-features = false, features = ["macros", "ws"] }
actix-web-actors = "=4.3.1"
actix-cors = "=0.7.2"
dotenv = "=0.15.0"
env_logger = "=0.11.11"
lazy_static = "=1.5.1"
futures-util = { version = "=0.3.34", default-features = false, features = ["std"] }
