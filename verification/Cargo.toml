[package]
name = "orderly_allocator"
version = "0.1.0"
edition = "2021"
publish = false

[dependencies]
btree-slab = "=0.6.1"
slab = "=0.4.12"
