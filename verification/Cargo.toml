[package]
name = "kermol"
version = "0.1.0"
edition = "2021"
publish = false

[dependencies]
x86_64 = { version = "=0.15.5", default-features = false, features = ["instructions"] }
spin = "=0.9.9"
lazy_static = "=1.5.1"
pic8259 = { version = "=0.11.0", default-features = false, features = ["stable"] }
linked_list_allocator = "=0.10.6"
limine-protocol-for-rust = "=0.2.1"
