[package]
name = "osm_tasks"
version = "0.1.0"
edition = "2021"
publish = false

[dependencies]
rand = "=0.8.8"
quadtree_rs = "=0.1.3"
serde = { version = "=1.0.229", features = ["derive"] }
bincode = "=1.3.3"
rayon = "=1.12.0"
clap = { version = "=3.2.25", features = ["derive"] }
once_cell = "=1.21.4"
