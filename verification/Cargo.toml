[package]
name = "scatac_fragment_tools"
version = "0.1.0"
edition = "2021"
publish = false

[dependencies]
itertools = "*"
bgzip = "*"
noodles = { version = "*", features = ["bgzf", "core", "csi", "tabix"] }
