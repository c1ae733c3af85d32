[package]
name = "ros"
version = "0.1.0"
edition = "2021"
publish = false

[dependencies]
x86_64 = { version = "*", default-features = false, features = ["instructions"] }
multiboot2 = "*"
linked_list_allocator = "*"
spin = "*"
lazy_static = { version = "*", features = ["spin_no_std"] }
bootloader = "0.9"
