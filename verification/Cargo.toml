[package]
name = "blueprint_render"
version = "0.1.0"
edition = "2021"
publish = false

[dependencies]
base64 = "0.21"
flate2 = "1"
serde = { version = "1", features = ["derive"] }
serde_json = "1"
clap = { version = "4", features = ["derive"] }
clap-verbosity-flag = "2"
log = "0.4"
image = "0.24"
obj = "0.10"
nalgebra-glm = "0.18"
num-traits = "0.2"
lazy_static = "1"
memoffset = "0.9"
glutin = "0.30"
glutin-winit = "0.3"
winit = "0.28"
raw-window-handle = "0.5"
