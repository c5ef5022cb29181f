[package]
name = "ezkl"
version = "0.1.0"
edition = "2021"
publish = false

[dependencies]
anyhow = "=1.0.104"
halo2_proofs = "0.3"
halo2curves = "=0.1.0"
itertools = "=0.10.5"
log = "=0.4.34"
tract-onnx = "=0.23.9"
