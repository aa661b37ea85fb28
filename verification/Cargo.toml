[package]
name = "poi_catalog"
version = "0.1.0"
edition = "2021"
publish = false

[dependencies]
gpx = "=0.9.1"
time = "=0.3.55"
log = "=0.4.34"
env_logger = "=0.11.11"
structopt = "=0.3.26"
thiserror = "=1.0.69"
