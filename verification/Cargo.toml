[package]
name = "stratum"
version = "0.1.0"
edition = "2021"
publish = false

[dependencies]
chrono = "=0.4.45"
argon2rs = "=0.2.5"
rand = "=0.8.8"
actix = "=0.7.9"
actix-web = "=0.7.19"
diesel = { version = "=1.4.8", features = ["postgres", "chrono", "uuidv07", "r2d2"] }
uuid = { version = "=0.8.2", features = ["v4", "serde"] }
tera = "=0.11.20"
askama = "=0.8.0"
futures = "=0.1.31"
bytes = "=0.4.12"
serde = { version = "=1.0.229", features = ["derive"] }
toml = "=0.5.11"
dotenv = "=0.15.0"
env_logger = "=0.6.2"
log = "=0.4.35"
failure = "=0.1.8"
