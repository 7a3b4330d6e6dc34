[package]
name = "geohash_tiles"
version = "0.1.0"
edition = "2021"
publish = false

[dependencies]
gdal = "=0.6.0"

[dev-dependencies]
geohash = "=0.10.0"
