//! Core logic of a type-1 hypervisor for 64-bit RISC-V with the H extension.
//!
//! The crate holds the decisions the hypervisor takes: how frames are handed
//! out, which regions a zone maps, how a trap is classified, what a guest's
//! access to the interrupt controller turns into, and how the harts are
//! sequenced through boot. Register and device accesses are left to the
//! caller: the functions here return the action to perform.
pub mod arch;
pub mod boot;
pub mod consts;
pub mod devicetree;
pub mod error;
pub mod memory;
pub mod percpu;
pub mod zone;

