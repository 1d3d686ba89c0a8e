[package]
name = "tilemachine"
version = "0.1.0"
edition = "2021"
publish = false

[dependencies]
actix-files = "*"
actix-web = "*"
gdal = "*"
gdal-sys = "*"
handlebars = "*"
log = "*"
png = "*"
serde = { version = "*", features = ["derive"] }
serde_json = "*"
simple_logger = "*"
v8 = "*"
