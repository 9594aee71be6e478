//! FAT volumes of either width: what the FAT16 and the FAT32 writer and reader have in common.

pub mod clean;
pub mod law;
pub mod layout;
pub mod names;
pub mod order;
pub mod plan;
pub mod read;
pub mod shown;
pub mod sound;
pub mod tree;
