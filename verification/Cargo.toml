[package]
name = "keeper"
version = "0.1.0"
edition = "2021"
publish = false

[dependencies]
iron = "0.6"
log = "0.4"
log4rs = "1"
mount = "0.4"
router = "0.6"
rustc-serialize = "0.3"
staticfile = "0.5"
time = "0.1"
toml = "0.1"
