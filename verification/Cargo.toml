[package]
name = "rustbx"
version = "0.1.0"
edition = "2021"
publish = false

[dependencies]
anyhow = "=1.0.104"
clap = { version = "=4.5.61", features = ["derive"] }
glob = "=0.3.4"
ndarray = "=0.16.1"
nifti = { version = "=0.18.0", features = ["ndarray_volumes"] }
ort = "=2.0.0-rc.13"
