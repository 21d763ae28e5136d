[package]
name = "mos"
version = "0.1.0"
edition = "2021"
publish = false

[dependencies]
bit_field = "=0.10.3"
buddy_system_allocator = "0.11.0"
hashbrown = "=0.7.2"
lazy_static = { version = "=1.5.1", features = ["spin_no_std"] }
riscv = "=0.16.1"
spin = "=0.5.2"
