[package]
name = "rusty_potree_converter"
version = "0.1.0"
edition = "2021"
publish = false

[dependencies]
byteorder = "1.5.0"
ord_subset = "*"
serde = { version = "1", features = ["derive"] }
serde_json = "1"
csv = "1.4.0"
pcd-rs = "*"
wasm-bindgen = "0.2"
js-sys = "0.3"
