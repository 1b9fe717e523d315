[package]
name = "rustspeedtest"
version = "0.1.0"
edition = "2021"
publish = false

[dependencies]
cidr-utils = "=0.5.11"
rand = "=0.10.3"
regex = "=1.13.1"
url = "=2.5.8"
reqwest = { version = "=0.13.5", default-features = false, features = ["stream"] }
tokio = { version = "=1.53.2", features = ["full"] }
futures = "=0.3.34"
indicatif = "=0.18.6"
log = "=0.4.34"
simple_logger = "=5.2.0"
structopt = "=0.3.26"
io-uring = "=0.7.15"
nix = { version = "=0.31.3", features = ["socket", "resource", "net"] }
