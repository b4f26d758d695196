[package]
name = "rdf5d"
version = "0.1.0"
edition = "2021"
publish = false

[dependencies]
zstd = "0.13"
memmap2 = "0.9"
clap = { version = "4", features = ["derive"] }
oxigraph = { version = "0.5", default-features = false }
