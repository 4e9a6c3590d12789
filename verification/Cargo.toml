[package]
name = "sdr_fm"
version = "0.1.0"
edition = "2021"
publish = false

[dependencies]
serde = { version = "1", features = ["derive"] }
serde_json = "1"
dirs = "*"
ureq = { version = "2", features = ["json"] }
crossbeam-channel = "0.5"
libc = "0.2"
num-complex = "0.4"
rustfft = "6"
cpal = { version = "*", default-features = false }
fmradio = "*"
desperado = "*"
