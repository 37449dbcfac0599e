//! Lowest layer of a disk-backed data store: fixed-size blocks over named
//! files, an in-memory page with typed, offset-addressed fields, and a file
//! manager that moves pages to and from block-granular offsets.

pub mod block_id;
pub mod codec;
pub mod file_mgr;
pub mod page;
