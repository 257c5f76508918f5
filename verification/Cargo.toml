[package]
name = "stream_core"
version = "0.1.0"
edition = "2021"
publish = false

[dependencies]
bytes = "=1.12.1"
reed-solomon-erasure = "=6.0.0"
postcard = { version = "=1.1.3", features = ["use-std"] }
serde = { version = "=1.0.229", features = ["derive"] }
log = "=0.4.35"
env_logger = "=0.11.11"
tokio = { version = "=1.54.1", features = ["full"] }
quinn = { version = "=0.11.12", default-features = false, features = ["runtime-tokio", "rustls-ring", "log"] }
rustls = { version = "=0.23.46", default-features = false, features = ["ring", "std", "tls12", "logging"] }
socket2 = "=0.5.10"
rcgen = "=0.14.10"
rayon = "=1.12.0"
libc = "=0.2.191"
wgpu = { version = "=29.0.4", default-features = false, features = ["std", "vulkan", "wgsl"] }
winit = { version = "=0.30.13", default-features = false, features = ["rwh_06", "x11"] }
ash = "=0.38.0"
pollster = "=0.4.0"
cpal = "=0.17.3"
opus-decoder = "=0.1.1"
ffmpeg-next = "=8.1.0"
pipewire = "=0.9.2"
ashpd = { version = "=0.13.13", features = ["screencast"] }
