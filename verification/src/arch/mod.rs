//! Architecture-specific logic.
pub mod riscv;
