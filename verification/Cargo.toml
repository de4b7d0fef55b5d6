[package]
name = "pulsar"
version = "0.1.0"
edition = "2021"
publish = false

[dependencies]
anyhow = "1"
colored = "2"
inform = "*"
log = "0.4"
either = "1"
calyx-ir = "*"
calyx-opt = "*"
calyx-frontend = "*"
calyx-utils = "*"
