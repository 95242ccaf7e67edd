[package]
name = "rust_os"
version = "0.1.0"
edition = "2021"
publish = false

[dependencies]
bootloader = "=0.9.35"
conquer-once = "=0.4.0"
crossbeam-queue = "=0.3.14"
futures-util = "=0.3.34"
lazy_static = "=1.5.1"
pc-keyboard = "0.7"
spin = "=0.9.9"
volatile = "=0.2.7"

[dependencies.x86_64]
version = "=0.15.5"
default-features = false
features = ["instructions"]
