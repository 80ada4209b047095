[package]
name = "spiral_rsvp"
version = "0.1.0"
edition = "2021"
publish = false

[dependencies]
rand = "0.8"
ab_glyph = "0.2"
image = { version = "0.25", default-features = false }
rayon = "1"
serde = { version = "1", features = ["derive"] }
toml = "0.8"
anyhow = "1"
