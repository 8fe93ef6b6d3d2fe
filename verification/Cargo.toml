[package]
name = "rtpbin2"
version = "0.1.0"
edition = "2021"
publish = false

[dependencies]
rtp-types = "=0.1.2"
rtcp-types = "=0.1.0"
rand = "=0.8.8"
log = "0.4"
once_cell = "1"
futures = "0.3"
tokio = { version = "1", features = ["rt-multi-thread", "time", "sync"] }
env_filter = "0.1"
gio = "0.20"
gstreamer = "0.23"
gstreamer-base = "0.23"
gstreamer-net = "0.23"
gstreamer-video = "0.23"
