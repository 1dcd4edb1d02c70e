[package]
name = "rapid_arm_emu"
version = "0.1.0"
edition = "2021"
publish = false

[dependencies]
anyhow = "1"
bytemuck = { version = "1", features = ["derive"] }
crossbeam-utils = "0.8"
parking_lot = "0.12"
rpds = "1"
smallvec = "1"
stacker = "0.1"
thin-vec = "0.2"
thiserror = "2"

[dev-dependencies]
loom = "0.7"
