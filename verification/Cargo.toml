[package]
name = "blog_os"
version = "0.1.0"
edition = "2021"
publish = false

[dependencies]
spin = "=0.5.2"
linked_list_allocator = { version = "=0.9.1", default-features = false, features = ["use_spin"] }
x86_64 = { version = "=0.14.13", default-features = false, features = ["instructions", "inline_asm"] }
bootloader = { version = "=0.9.35", features = ["map_physical_memory"] }
volatile = "=0.2.7"
lazy_static = "=1.5.1"
pic8259 = "=0.10.4"
pc-keyboard = "=0.5.1"
crossbeam-queue = { version = "=0.2.3", default-features = false, features = ["alloc"] }
conquer-once = { version = "=0.2.1", default-features = false }
futures-util = { version = "=0.3.34", default-features = false, features = ["alloc"] }
