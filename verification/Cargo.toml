[package]
name = "vello"
version = "0.1.0"
edition = "2021"
publish = false

[dependencies]
guillotiere = "0.6"
bytemuck = "1"
peniko = "0.5"
log = "0.4"
