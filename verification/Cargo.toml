[package]
name = "symstore"
version = "0.1.0"
edition = "2021"
publish = false

[dependencies]
anyhow = "=1.0.104"
memmap2 = "=0.9.12"
rkyv = "=0.7.46"
smallvec = "=1.16.4"
