[package]
name = "openlineplanner_core"
version = "0.1.0"
edition = "2021"
publish = false

[dependencies]
actix-web = "=4.15.0"
actix-cors = "=0.7.2"
anyhow = "=1.0.104"
chrono = "=0.4.45"
config = "=0.15.27"
geo = { version = "=0.33.1", features = ["use-serde"] }
log = "=0.4.34"
num_cpus = "=1.17.0"
serde = { version = "=1.0.229", features = ["derive"] }
serde_json = "=1.0.151"
thiserror = "=2.0.21"
tracing-subscriber = { version = "=0.3.23", features = ["env-filter", "fmt"] }
validator = { version = "=0.21.0", features = ["derive"] }
