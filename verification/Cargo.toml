[package]
name = "rustx11shortcuts"
version = "0.1.0"
edition = "2021"
publish = false

[dependencies]
serde = { version = "1", features = ["derive"] }
x11 = { version = "2", features = ["xlib"] }
