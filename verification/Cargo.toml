[package]
name = "store"
version = "0.1.0"
edition = "2021"
publish = false

[dependencies]
aes = "0.8"
byteorder = "1"
fxhash = "0.2"
hmac = "0.12"
sha2 = "0.10"
rand = "0.8"
log = "0.4"
env_logger = "0.9"
lazy_static = "1"
clap = "3"
tokio = { version = "1", features = ["net", "rt", "time", "sync", "macros", "io-util"] }
prometheus = "0.13"
hyper = { version = "0.14", features = ["server", "http1", "tcp"] }
tokio-rustls = "0.23"
rustls-pemfile = "1"
