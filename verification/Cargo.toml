[package]
name = "wrpc_wasmtime"
version = "0.1.0"
edition = "2021"
publish = false

[dependencies]
anyhow = "=1.0.104"
bytes = "=1.12.1"
futures = "=0.3.34"
tokio = { version = "=1.54.1", features = ["io-util", "sync", "rt"] }
tokio-util = { version = "=0.7.20", features = ["codec", "io"] }
tracing = "=0.1.44"
uuid = { version = "=1.29.0", features = ["v7"] }
wasm-tokio = "=0.8.2"
wasmtime = { version = "=48.0.8", default-features = false, features = ["async", "component-model", "component-model-async", "component-model-bytes", "runtime", "std"] }
wasmtime-wasi = { version = "=48.0.8", default-features = false, features = ["p2"] }
wrpc-transport = "=0.30.0"
