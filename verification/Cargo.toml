[package]
name = "motherboard"
version = "0.1.0"
edition = "2021"
publish = false

[dependencies]
hashbrown = "0.15"
serde = { version = "1", features = ["derive"] }
postcard = { version = "1", features = ["alloc"] }
thiserror = "2"
libc = "0.2"
log = "0.4"
spin = "0.9"
lazy_static = "1"
bitflags = "2"
tokio = { version = "1", features = ["net", "rt", "macros"] }
env_logger = "0.11"
