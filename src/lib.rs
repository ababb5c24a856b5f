//! A small single-directory, inode-based file system over a fixed-geometry
//! block device.

pub mod disk;
pub mod geometry;
pub mod fs;
pub mod result;

pub use disk::RamDisk;
pub use fs::{FileInfo, FileSystem, Inode};
pub use result::{FileSystemError, FileSystemResult};
