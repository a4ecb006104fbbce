//! Caches of page contents and of translations.
pub mod timed_cache;
pub mod tlb_cache;
pub mod cached_vat;
pub mod cached_memory_access;
