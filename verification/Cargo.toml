[package]
name = "clovers"
version = "0.1.0"
edition = "2021"
publish = false

[dependencies]
rand = { version = "0.8", features = ["small_rng"] }
rand_distr = "0.4"
nalgebra = "0.33"
palette = "0.7"
serde = { version = "1", features = ["derive"] }
clap = { version = "4", features = ["derive"] }
image = { version = "0.25", default-features = false, features = ["png"] }
indicatif = "0.17"
chrono = "0.4"
humantime = "2"
tracing = "0.1"
tracing-timing = "*"
ply-rs = "*"
stl_io = "*"
rayon = "1"
crossbeam-utils = "0.8"
enum_dispatch = "0.3"
log = "0.4"
bytemuck = { version = "1", features = ["derive"] }
