[package]
name = "mmproxy"
version = "0.1.0"
edition = "2021"
publish = false

[dependencies]
argwerk = "=0.20.4"
env_logger = "=0.11.11"
libc = "=0.2.190"
log = "=0.4.34"
simple-eyre = "=0.3.1"
socket2 = { version = "=0.6.5", features = ["all"] }
tokio = { version = "=1.53.2", features = ["net", "io-util", "rt-multi-thread", "macros", "sync", "time"] }

[dev-dependencies]
cidr = "=0.3.2"
proxy-protocol = "=0.5.0"
