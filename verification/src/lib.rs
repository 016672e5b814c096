//! A verified buffer pool manager: an in-memory cache of fixed-size disk
//! pages.  Clients address data by logical page id; the pool keeps a bounded
//! set of page-sized frames, hands out read and write guards over resident
//! pages, and evicts cold pages back to the disk image to make room for hot
//! ones.

pub mod buffer_pool;
pub mod disk_manager;
pub mod errors;
pub mod frame;
pub mod hybrid_lock;
pub mod page;
pub mod replacer;
