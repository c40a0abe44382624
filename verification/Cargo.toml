[package]
name = "braille_art"
version = "0.1.0"
edition = "2021"
publish = false

[dependencies]
rand = "=0.8.8"
image = "=0.25.10"
lazy_static = "=1.5.1"
log = "=0.4.34"
serde = { version = "=1.0.229", features = ["derive"] }
actix-web = "=4.18.1"
reqwest = "=0.11.27"
flexi_logger = { version = "=0.31.10", features = ["async", "colors", "compress"] }
