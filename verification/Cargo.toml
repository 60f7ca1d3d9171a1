[package]
name = "efense"
version = "0.1.0"
edition = "2021"
publish = false

[dependencies]
time = { version = "=0.3.55", features = ["formatting", "parsing"] }
serde = { version = "=1.0.229", features = ["derive"] }
serde_json = "=1.0.154"
serde_yaml = "=0.9.34"
aya = "=0.13.1"
aya-log = "=0.2.1"
clap = { version = "=4.6.7", features = ["derive"] }
tokio = { version = "=1.54.1", features = ["macros", "rt-multi-thread", "signal", "sync", "net", "io-util"] }
env_logger = "=0.11.11"
log = "=0.4.35"
libc = "=0.2.191"

[dev-dependencies]
network-types = "*"
