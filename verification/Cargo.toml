[package]
name = "dns_server"
version = "0.1.0"
edition = "2021"
publish = false

[dependencies]
lru = "*"
rand = "0.8"
log = "0.4"
clap = { version = "4", features = ["derive"] }
flexi_logger = "*"
tokio = { version = "1", features = ["net", "time", "rt-multi-thread", "macros", "sync"] }
