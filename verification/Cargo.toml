[package]
name = "room_broker"
version = "0.1.0"
edition = "2021"
publish = false

[dependencies]
uuid = { version = "1", features = ["v4"] }
actix = "0.13"
actix-web = "4"
actix-web-actors = "4"
dotenv = "0.15"
env_logger = "0.11"
log = "0.4"
