[package]
name = "mt-engine-core"
version = "0.1.0"
edition = "2021"
publish = false

[dependencies]
slab = "0.4"
rustc-hash = "2"
serde = { version = "1", features = ["derive"] }
rkyv = "0.7"
memmap2 = "0.9"
libc = "0.2"
