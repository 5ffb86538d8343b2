//! Early-boot memory management: a double-ended bump allocator over a fixed
//! set of memory regions, and a small chained hash map.
//!
//! - [`align`]: padding and alignment of addresses.
//! - [`region`]: one memory region with its byte and page cursors.
//! - [`early`]: the allocator over up to eight regions.
//! - [`collec`]: the hash map.
//! - [`hashed`]: the hash map as a finite map, for a hasher that computes a
//!   function of the key.

pub mod align;
pub mod collec;
pub mod early;
pub mod hashed;
pub mod region;
