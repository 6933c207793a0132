[package]
name = "kernel_memory"
version = "0.1.0"
edition = "2021"
publish = false

[dependencies]
x86_64 = { version = "=0.14.13", default-features = false, features = ["instructions"] }
bootloader_api = "0.11"
acpi = "=4.1.1"
spin = "=0.9.9"
lazy_static = "=1.5.1"
cansi = "=2.2.1"
font8x8 = "=0.3.1"
palette = "=0.6.1"
owo-colors = "=3.5.0"
