[package]
name = "taskstore"
version = "0.1.0"
edition = "2021"
publish = false

[dependencies]
r2d2 = "*"
r2d2_sqlite = "*"
actix-web = "*"
serde = { version = "*", features = ["derive"] }
serde_json = "*"
log = "*"
env_logger = "*"
