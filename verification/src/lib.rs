pub mod acm;
pub mod bit_reader;
pub mod bytes;
pub mod dat;
pub mod error;
pub mod filetype;
pub mod fillers;
pub mod frm;
pub mod lzss;
pub mod mve;
pub mod pal;
pub mod paths;
pub mod readers;
pub mod tree;
pub mod vec2d;

use vstd::prelude::*;

verus! {

/// Classifies an archive entry's payload: stored raw, or compressed to
/// `size` bytes on disk.
#[derive(Debug, Default, Clone, Copy, PartialEq, Eq, Structural)]
pub enum FileState {
    Compressed { size: usize },
    #[default]
    Uncompressed,
}

} // verus!
