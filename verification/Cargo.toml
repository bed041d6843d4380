[package]
name = "netspectrum"
version = "0.1.0"
edition = "2021"
publish = false

[dependencies]
anyhow = "1"
bytemuck = { version = "1", features = ["derive"] }
clap = { version = "4", default-features = false, features = ["std", "derive", "help", "usage", "error-context"] }
crossbeam-channel = "0.5"
etherparse = "0.13"
glyphon = "0.5"
pcap = "2"
pollster = "0.3"
wgpu = { version = "0.19", default-features = false, features = ["wgsl"] }
