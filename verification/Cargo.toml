[package]
name = "forceps"
version = "0.1.0"
edition = "2021"
publish = false

[dependencies]
actix-web = "4"
async-trait = "0.1"
awc = "3"
bson = "2"
bytes = "1"
cached = "*"
env_logger = "*"
hex = "0.4"
log = "0.4"
lru = "0.7"
md5 = "0.7"
parking_lot = "0.12"
rand = { version = "0.8", features = ["small_rng"] }
serde = { version = "1", features = ["derive"] }
serde_json = "1"
sled = "0.34"
tokio = { version = "1", features = ["fs", "io-util", "rt", "rt-multi-thread", "macros"] }
