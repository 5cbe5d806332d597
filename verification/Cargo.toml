[package]
name = "pcs_pipeline"
version = "0.1.0"
edition = "2021"
publish = false

[dependencies]
hex = "=0.4.3"
substreams = "=0.0.21"
prost = "=0.11.9"
