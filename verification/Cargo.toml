[package]
name = "iris_mmu"
version = "0.1.0"
edition = "2021"
publish = false

[dependencies]
device_tree_parser = "*"
riscv = "*"
sbi-rt = "*"
qemu-exit = "*"
critical-section = "*"
embedded-alloc = { version = "*", features = ["tlsf"] }
thiserror = { version = "*", default-features = false }
