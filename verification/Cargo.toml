[package]
name = "oxygen"
version = "0.1.0"
edition = "2021"
publish = false

[dependencies]
audiopus = "0.2"
chrono = "0.4"
clap = { version = "4.4", features = ["derive"] }
color-eyre = "0.6"
cpal = "0.15"
ctrlc = "3.4"
dasp = { version = "0.11", features = ["signal", "interpolate", "interpolate-linear"] }
hound = "3.5"
rusqlite = { version = "0.31", features = ["bundled"] }
symphonia = "0.5"
