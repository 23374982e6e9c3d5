[package]
name = "wmfocus"
version = "0.1.0"
edition = "2021"
publish = false

[dependencies]
anyhow = "1"
cairo-rs = { version = "0.14", features = ["xcb"] }
cairo-sys-rs = { version = "0.14", features = ["xcb"] }
clap = { version = "3", features = ["derive", "cargo"] }
css-color-parser = "0.1"
font-loader = "0.11"
log = "0.4"
pretty_env_logger = "0.4"
serde = { version = "1", features = ["derive"] }
serde_json = "1"
xcb = "0.9"
xkbcommon = { version = "0.4", default-features = false }
