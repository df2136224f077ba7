[package]
name = "kairos"
version = "0.1.0"
edition = "2021"
publish = false

[dependencies]
anyhow = "1"
clap = { version = "4", features = ["derive", "env"] }
dirs = "6"
getrandom = "0.3"
hex = "0.4"
hmac = "0.12"
libc = "0.2"
pcap = "2"
pnet_packet = "0.35"
rusqlite = { version = "0.32", features = ["bundled"] }
sd-notify = "0.4"
serde = { version = "1", features = ["derive"] }
sha2 = "0.10"
signal-hook = "0.3"
toml = "0.8"
tracing = "0.1"
tracing-subscriber = { version = "0.3", features = ["env-filter"] }
zeroize = "1"
