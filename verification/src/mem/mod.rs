//! Access to the target's memory.
pub mod phys_mem;
pub mod image;
pub mod virt_mem;
pub mod virt_from_phys;
