[package]
name = "voip"
version = "0.1.0"
edition = "2021"
publish = false

[dependencies]
prost = "=0.13.5"
tokio = { version = "=1.54.1", features = ["full"] }
tokio-util = "=0.7.20"
wtransport = { version = "=0.6.1", features = ["dangerous-configuration"] }
ringbuf = "=0.4.8"
cpal = { version = "0.15", default-features = false }
dasp = { version = "=0.11.0", features = ["signal", "interpolate", "interpolate-linear"] }
audiopus = "=0.3.0-rc.0"
tracing = "=0.1.44"
tracing-subscriber = { version = "=0.3.23", features = ["env-filter"] }
anyhow = "=1.0.104"
thiserror = "=2.0.21"
