[package]
name = "red_crescent"
version = "0.1.0"
edition = "2021"
publish = false

[dependencies]
actix-files = "0.6"
actix-multipart = "0.7"
actix-web = "4"
argon2 = "*"
clap = { version = "4", features = ["derive", "env"] }
futures-util = "0.3"
getrandom = "*"
libc = "0.2"
log = "0.4"
mlua = { version = "0.11", features = ["lua54", "vendored", "serde"] }
percent-encoding = "2"
pretty_env_logger = "0.5"
rusqlite = { version = "*", features = ["bundled"] }
serde = { version = "1", features = ["derive"] }
serde_json = "1"
serde_urlencoded = "0.7"
sha2 = "*"
tempfile = "3"
tokio = { version = "1", features = ["fs"] }
