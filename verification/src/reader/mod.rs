//! Reading images: containers, metadata, partitions.

pub mod data;
pub mod extent_stream;
pub mod laws;
pub mod load;
pub mod multiblock;
pub mod parser;
pub mod source;
