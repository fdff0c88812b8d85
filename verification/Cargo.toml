[package]
name = "prm_planner"
version = "0.1.0"
edition = "2021"

[dependencies]
csv = "1"
image = { version = "0.24", default-features = false, features = ["jpeg", "png"] }
rand = "0.8"
