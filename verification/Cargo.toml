[package]
name = "potter_poc"
version = "0.1.0"
edition = "2021"
publish = false

[dependencies]
wasm-encoder = "=0.263.0"
wasmparser = "=0.263.0"
fasteval = "=0.2.4"
libm = "=0.2.16"
num-dual = "=0.14.2"
cranelift = "=0.131.3"
cranelift-jit = "=0.131.3"
cranelift-module = "=0.131.3"
cranelift-native = "=0.131.3"
