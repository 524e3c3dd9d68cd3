[package]
name = "docker-source-checksum"
version = "0.2.1"
edition = "2021"
publish = false

[dependencies]
base64 = "=0.13.1"
blake2 = "=0.8.1"
common_failures = "=0.1.1"
crev-recursive-digest = "=0.4.0"
digest = "=0.8.1"
env_logger = "=0.7.1"
failure = "=0.1.8"
glob = "=0.3.4"
hex = "=0.4.3"
log = "=0.4.34"
structopt = "=0.3.26"
