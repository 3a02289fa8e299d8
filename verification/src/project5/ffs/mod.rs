//! The Fast File System (FFS): on-disk layout, inodes and journal.
pub mod bitmap;
pub mod codec;
pub mod disk_layout;
pub mod fs;
pub mod fs_objects;
pub mod inode;
pub mod journal;
pub mod types;
