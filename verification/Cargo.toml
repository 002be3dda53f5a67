[package]
name = "roused"
version = "0.1.0"
edition = "2021"
publish = false

[dependencies]
async-trait = "0.1"
bytes = "1"
clap = { version = "4", features = ["derive"] }
env_logger = "0.11"
http = "1"
libc = "0.2"
log = "0.4"
pingora = { version = "=0.8.1", default-features = false, features = ["proxy"] }
serde = { version = "1", features = ["derive"] }
tokio = { version = "1", features = ["macros", "net", "process", "rt", "signal", "sync", "time"] }
toml = "*"
