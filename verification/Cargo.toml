[package]
name = "usb_boot_core"
version = "0.1.0"
edition = "2021"
publish = false

[dependencies]
crossbeam-queue = "0.3"
futures-util = "0.3"
conquer-once = "0.4"
pc-keyboard = "0.7"
x86_64 = "0.14"
bootloader = "0.9"
