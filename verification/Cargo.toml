[package]
name = "location_based_sharding"
version = "0.1.0"
edition = "2021"
publish = false

[dependencies]
s2 = "*"
serde = "*"
serde_derive = "*"

[dev-dependencies]
rand = "0.8"
