//! The file system.

pub mod crash;
pub mod inode;
pub mod laws;
pub mod log;
pub mod ops;
pub mod path;
pub mod tx;
pub mod virtio;
pub mod virtio_disk;
