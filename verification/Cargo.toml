[package]
name = "hvisor"
version = "0.1.0"
edition = "2021"
publish = false

[dependencies]
bitmap-allocator = "*"
riscv-decode = "*"
fdt = "*"
riscv = "*"
sbi-rt = "*"
spin = "*"
log = "*"
buddy_system_allocator = "*"
