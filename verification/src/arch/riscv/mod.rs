//! RISC-V with the hypervisor extension: the register shadow of a hart, the
//! firmware call shim, the interrupt controller emulation and trap dispatch.
pub mod cpu;
pub mod csr;
pub mod plic;
pub mod sbi;
pub mod timer;
pub mod trap;
