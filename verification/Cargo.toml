[package]
name = "powerpoll"
version = "0.1.0"
edition = "2021"
publish = false

[dependencies]
tokio = { version = "1", features = ["macros", "rt-multi-thread", "time"] }
futures = "0.3"
mongodb = "2"
bson = { version = "2", features = ["chrono-0_4"] }
tapo = "*"
chrono = { version = "0.4", default-features = false, features = ["clock"] }
log = "0.4"
pretty_env_logger = "0.5"
