[package]
name = "rmemstore"
version = "0.1.0"
edition = "2021"
publish = false

[dependencies]
ahash = "=0.8.12"
bytes = "=1.12.1"
clap = { version = "=4.6.7", features = ["derive", "env"] }
env_logger = "=0.11.11"
futures = "=0.3.34"
k-lock = "=0.2.5"
log = "=0.4.34"
num_cpus = "=1.17.0"
parse-size = "=1.1.0"
prost = "=0.14.4"
protosocket = "=2.0.2"
protosocket-prost = "=2.0.2"
protosocket-rpc = "=2.0.2"
protosocket-server = "=2.0.2"
serde = { version = "=1.0.229", features = ["derive"] }
serde_json = "=1.0.151"
signal-hook = "=0.4.5"
thiserror = "=2.0.21"
tokio = { version = "=1.53.2", features = ["full"] }
