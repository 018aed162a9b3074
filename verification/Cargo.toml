[package]
name = "vdaf_stuff"
version = "0.1.0"
edition = "2021"
publish = false

[dependencies]
prio = "=0.16.8"
rand = "=0.8.8"
plotpy = "=1.24.0"
