[package]
name = "epd_home"
version = "0.1.0"
edition = "2021"
publish = false

[dependencies]
chrono = "*"
chrono-tz = "*"
titlecase = "*"
reqwest = { version = "*", default-features = false, features = ["json", "rustls-tls"] }
tokio = { version = "*", features = ["macros", "rt-multi-thread"] }
futures = "*"
serde = { version = "*", features = ["derive"] }
serde_json = "*"
resvg = "*"
usvg = "*"
tiny-skia = "*"
fontdb = "*"
bmp-monochrome = "*"
