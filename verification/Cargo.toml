[package]
name = "akhoik_ge"
version = "0.1.0"
edition = "2021"
publish = false

[dependencies]
uuid = { version = "=1.29.0", features = ["v4"] }
ultraviolet = "=0.10.0"
beryllium = "=0.13.3"
ogl33 = "=0.2.0"
bytemuck = "=1.25.2"
stb_image_rust = "=2.27.2"
dispose = "=0.5.2"
