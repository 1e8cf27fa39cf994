[package]
name = "dice_dist"
version = "0.1.0"
edition = "2021"
publish = false

[dependencies]
rug = { version = "1", default-features = false, features = ["integer"] }
rand = "0.8"
hyper = { version = "0.14", features = ["full"] }
http = "0.2"
tokio = { version = "1", features = ["full"] }
url = "2"
local-ip-address = "0.6"
pretty_env_logger = "0.5"
