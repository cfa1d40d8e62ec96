[package]
name = "state_space_adventure"
version = "0.1.0"
edition = "2021"
publish = false

[dependencies]
petgraph = "*"
glam = { version = "*", features = ["mint", "serde"] }
mint = { version = "*", features = ["serde"] }
serde = { version = "1", features = ["derive"] }
ron = "*"
rand = "0.9"
rayon = "*"
itertools = "*"
tokio = { version = "1", features = ["rt", "macros"] }
stardust-xr-fusion = "*"
stardust-xr-asteroids = "*"
