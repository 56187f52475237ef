[package]
name = "gash"
version = "0.1.0"
edition = "2021"
publish = false

[dependencies]
sha1 = "=0.10.7"
rayon = "=1.12.0"
chrono = "=0.4.19"
anyhow = "=1.0.104"
clap = { version = "=3.2.25", features = ["derive"] }
termcolor = "=1.4.1"
tempfile = "=3.27.0"
pathdiff = "=0.2.3"

[dev-dependencies]
hex = "=0.4.3"
