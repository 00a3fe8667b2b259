[package]
name = "core_boot"
version = "0.1.0"
edition = "2021"
publish = false

[dependencies]
goblin = { version = "=0.8.2", default-features = false, features = ["alloc", "elf32", "elf64", "endian_fd"] }
log = "=0.4.34"
uefi = { version = "=0.29.0", features = ["alloc"] }
