//! A minimal flat-file storage engine over a bounded in-memory block region.
//!
//! The engine composes a superblock (holding a free-space bitmap), a
//! fixed-size directory table, and a block region into create / delete /
//! read / write / list operations. Every structure is fixed-capacity and
//! every failure is an explicit, recoverable result.

pub mod block_device;
pub mod fs;
pub mod laws;
