//! A page-based document store: fixed-size pages in a paged file, a slotted
//! byte layout inside each page, a bounded buffer pool with pin counts and
//! least-recently-unpinned eviction, and an engine that turns documents into
//! stable physical addresses and back.
pub mod buffer_pool;
pub mod error;
pub mod object_id;
pub mod paged_file;
pub mod slotted_page;
pub mod storage_engine;
