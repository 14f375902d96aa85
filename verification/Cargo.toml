[package]
name = "waterui_gtk"
version = "0.1.0"
edition = "2021"
publish = false

[dependencies]
gdk4 = "0.11"
glib = "0.22"
glow = "0.17"
gtk4 = "0.11"
libloading = "0.9"
nami = "0.13"
tracing = "0.1"
waterui-core = "0.5"
waterui-layout = "0.5"
wgpu = { version = "29", default-features = false, features = ["std", "gles", "wgsl"] }
