[package]
name = "yrs_tree"
version = "0.1.0"
edition = "2021"
publish = false

[dependencies]
fractional_index = "2"
uuid = { version = "1", features = ["v7"] }
yrs = "*"
parking_lot = "0.12"
serde = "1"
