[package]
name = "goal_tracker"
version = "0.1.0"
edition = "2021"
publish = false

[dependencies]
anyhow = "*"
gag = "*"
lazy_static = "*"
thiserror = "*"
