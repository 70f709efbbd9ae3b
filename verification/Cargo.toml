[package]
name = "sim_core"
version = "0.1.0"
edition = "2021"
publish = false

[dependencies]
arrayvec = "0.7"
glam = "0.29"
microlp = "0.2"
rand_core = "0.6"
rand_pcg = { version = "0.3", features = ["serde1"] }
ron = "0.8"
serde = { version = "1", features = ["derive"] }
slotmap = "1"
