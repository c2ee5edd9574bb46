[package]
name = "chat"
version = "0.1.0"
edition = "2021"
publish = false

[dependencies]
byteorder = "=1.5.0"
protobuf = "=1.7.5"
mio = "=0.4.4"
log = "=0.3.9"
env_logger = "=0.3.5"
docopt = "=0.6.86"
rustc-serialize = "=0.3.25"
time = "=0.1.45"
simple_parallel = "=0.2.1"
