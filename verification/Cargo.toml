[package]
name = "sum_modpack"
version = "0.1.0"
edition = "2021"
publish = false

[dependencies]
num-format = "=0.4.4"
regex = "=1.13.1"
clap = { version = "=4.6.7", features = ["derive"] }
clap-verbosity-flag = "=3.0.4"
pretty_env_logger = "=0.5.0"
log = "=0.4.35"
tracing = "=0.1.44"
serde = { version = "=1.0.229", features = ["derive"] }
serde_urlencoded = "=0.7.1"
ureq = { version = "=3.5.1", features = ["json"] }
tabled = "=0.22.0"
thiserror = "=2.0.21"
