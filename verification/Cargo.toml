[package]
name = "rrt_sim"
version = "0.1.0"
edition = "2021"
publish = false

[dependencies]
rand = { version = "0.9", features = ["small_rng"] }
rand_chacha = "0.9"
anyhow = "1"
chrono = "0.4"
clap = { version = "4", features = ["derive"] }
ctrlc = "3"
gethostname = "*"
hex = "0.4"
indicatif = "*"
lazy_static = "1"
measure_time = "*"
minifb = "*"
nix = { version = "*", features = ["signal"] }
num-derive = "0.4"
num-traits = "0.2"
passfd = "*"
plotters = { version = "0.3", default-features = false, features = ["bitmap_backend", "line_series"] }
png = "*"
rayon = "1"
serde = { version = "1", features = ["derive"] }
serde_json = "1"
shmem-ipc = "*"
