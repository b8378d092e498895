[package]
name = "rust_os"
version = "0.1.0"
edition = "2021"
publish = false

[dependencies]
x86_64 = { version = "=0.14.13", default-features = false, features = ["instructions"] }
bootloader = { version = "=0.9.35", features = ["map_physical_memory"] }
pic8259 = "=0.10.4"
spin = "=0.5.2"
lazy_static = { version = "=1.5.1", features = ["spin_no_std"] }
conquer-once = { version = "=0.2.1", default-features = false }
crossbeam-queue = { version = "=0.3.14", default-features = false, features = ["alloc"] }
futures-util = { version = "=0.3.34", default-features = false, features = ["alloc"] }
linked_list_allocator = "0.10"
