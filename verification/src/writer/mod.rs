//! Writing metadata: where free space lies, and what the slots hold.

pub mod allocation;
pub mod laws;
pub mod read_back;
pub mod render;
pub mod spanning;

use vstd::prelude::*;

verus! {

/// Plans allocations and renders metadata.
pub struct LpWriter;

impl LpWriter {
    pub fn new() -> LpWriter {
        LpWriter
    }
}

/// The zero bytes that fill up a payload to whole sectors.
pub fn sector_padding(payload_len: u64) -> (r: u64)
    ensures
        r < 512,
        (payload_len + r) % 512 == 0,
{
    (512 - payload_len % 512) % 512
}

impl Default for LpWriter {
    fn default() -> LpWriter {
        LpWriter::new()
    }
}

} // verus!
