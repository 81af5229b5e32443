[package]
name = "branch_graph"
version = "0.1.0"
edition = "2021"
publish = false

[dependencies]
anyhow = "=1.0.104"
clap = { version = "=4.6.7", features = ["derive"] }
clap-verbosity-flag = "=3.0.4"
colored = "=2.2.0"
duct = "=0.13.7"
env_logger = "=0.11.11"
gix-config = { version = "=0.62.2", features = ["sha1"] }
log = "=0.4.34"
systemd-journal-logger = "=2.2.2"
