[package]
name = "rusty_sdf"
version = "0.1.0"
edition = "2021"
publish = false

[dependencies]
ttf-parser = "0.25"
unicode-bidi = "0.3"
rustybuzz = "0.20"
image = { version = "0.25", default-features = false }
nalgebra = "0.33"
rayon = "1"
num-traits = "0.2"
log = "0.4"
oklab = "1"
