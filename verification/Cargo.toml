[package]
name = "roadgen"
version = "0.1.0"
edition = "2021"
publish = false

[dependencies]
geo = "*"
geojson = "*"
noise = "0.8"
rand = "0.8"
serde_json = "1"
