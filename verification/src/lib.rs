//! Memory-access core of a memory-introspection library: typed addresses,
//! a page-table walker driven by an architecture descriptor, a translation
//! cache and a page cache, and the virtual-memory helpers built on them.
pub mod architecture;
pub mod bytes;
pub mod cache;
pub mod clock;
pub mod error;
pub mod mem;
pub mod payload;
pub mod scratch;
pub mod types;
pub mod va;
pub mod vat;

pub use crate::architecture::Architecture;
pub use crate::cache::cached_memory_access::CachedMemoryAccess;
pub use crate::cache::cached_vat::CachedVAT;
pub use crate::cache::timed_cache::{CacheEntry, TimedCache};
pub use crate::cache::tlb_cache::{CacheValidator, CountCacheValidator, TLBCache, TLBEntry, TimedCacheValidator};
pub use crate::clock::Ticks;
pub use crate::error::{Error, ErrorKind};
pub use crate::mem::image::MemoryImage;
pub use crate::mem::phys_mem::{AccessPhysicalMemory, PhysicalData};
pub use crate::mem::virt_from_phys::VirtualFromPhysical;
pub use crate::payload::Translated;
pub use crate::mem::virt_mem::{
    Pointer32, Pointer64, VirtualMemory, VirtualReadData, VirtualReadIterator, VirtualWriteData, VirtualWriteIterator,
};
pub use crate::types::{Address, Length, Page, PageType, PhysicalAddress};
pub use crate::va::VatImpl;
pub use crate::vat::VirtualAddressTranslator;
