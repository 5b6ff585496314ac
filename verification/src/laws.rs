//! What holds of the library as a whole, said of bytes, numbers and fields as they stand.

pub mod announce;
pub mod data;
pub mod disk;
pub mod layout;
pub mod metainfo;
pub mod numbers;
pub mod peers;
pub mod pieces;
pub mod report;
pub mod schedule;
pub mod wire;
