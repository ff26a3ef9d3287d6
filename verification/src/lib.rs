//! Android `super` partition images: the LP metadata format, its reader and
//! writer, Android Sparse containers, and the decisions behind each command.

pub mod commands;
pub mod digest;
pub mod encoding;
pub mod entry;
pub mod error;
pub mod format;
pub mod output;
pub mod reader;
pub mod sparse;
pub mod text;
pub mod text_laws;
pub mod writer;

pub use error::{Error, Fault, NameError};
pub use format::{
    backup_offset, primary_offset, slot_from_primary_offset, slot_of_offset, BlockDevice, Extent,
    Geometry, Group, MetadataHeader, Partition, TableDescriptor,
};
pub use reader::data::{slot_to_suffix, suffix_to_slot, SuperData};
pub use reader::extent_stream::ExtentReader;
pub use reader::load::{load_super, load_super_all, load_super_in_slot};
pub use reader::multiblock::{
    open_multiblock, resolve_device_bindings, MultiBlockImage, SplitExtentReader,
};
pub use reader::parser::LpParser;
pub use reader::source::{BlockSource, Image, MemorySource, PositionedSource};
pub use writer::LpWriter;
