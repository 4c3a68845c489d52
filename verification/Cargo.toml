[package]
name = "dex_core"
version = "0.1.0"
edition = "2021"
publish = false

[dependencies]
bytemuck = { version = "=1.25.2", features = ["derive", "min_const_generics"] }
dhat = "=0.3.3"
hdrhistogram = "=7.6.0"
libc = "=0.2.191"
rustc-hash = "=2.1.3"
