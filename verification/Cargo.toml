[package]
name = "cambrian"
version = "0.1.0"
edition = "2021"
publish = false

[dependencies]
anyhow = "1"
async-broadcast = "0.5"
async-channel = "1"
async-trait = "0.1"
clap = { version = "4", features = ["derive"] }
command-group = { version = "2", features = ["with-tokio"] }
ctrlc = "3"
enum-display-derive = "0.1"
env_logger = "0.10"
futures = "0.3"
futures-timer = "3"
itertools = "0.10"
lazy_static = "1"
log = "0.4"
nix = "0.26"
parse_duration = "2"
rand = "0.8"
rand_distr = "0.4"
serde = { version = "1", features = ["derive"] }
serde_json = "1"
serde_yaml = "0.9"
tangram_finite = "0.7"
thiserror = "1"
tokio = { version = "1", features = ["full"] }

[dev-dependencies]
float-cmp = "0.9"
serde_json = "1"
serde_yaml = "0.9"
