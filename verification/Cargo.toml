[package]
name = "fractal_glyph"
version = "0.2.0"
edition = "2021"
publish = false

[dependencies]
hilbert = "=0.1.2"
itertools = "=0.10.5"
image = "=0.23.14"
palette = "=0.5.0"
clap = "=2.34.0"
csv = "=1.4.0"
serde = { version = "=1.0.229", features = ["derive"] }
rayon = "=1.12.0"
nalgebra = "=0.18.1"
spade = "=1.8.2"
num-complex = "=0.3.1"
progress = "=0.2.0"
