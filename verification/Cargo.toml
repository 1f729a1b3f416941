[package]
name = "perl_core"
version = "0.1.0"
edition = "2021"
publish = false

[dependencies]
hashbrown = "*"
imbl = "*"
indexmap = "*"
parking_lot = "*"
