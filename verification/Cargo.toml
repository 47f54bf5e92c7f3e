[package]
name = "perf_model"
version = "0.1.0"
edition = "2021"
publish = false

[dependencies]
anyhow = "1"
ndarray = "0.16"
ndarray-interp = "0.5"
ndarray-npy = "0.9"
tracing = "0.1"
