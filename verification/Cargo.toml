[package]
name = "sched_sim"
version = "0.1.0"
edition = "2021"
publish = false

[dependencies]
hashbrown = "*"
min-max-heap = "*"
humantime = "*"
