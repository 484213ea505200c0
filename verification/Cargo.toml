[package]
name = "maze_wars"
version = "0.1.0"
edition = "2021"
publish = false

[dependencies]
rand = "=0.8.8"
throttle = "=0.1.0"
local-ip-address = "*"
