use vstd::prelude::*;

verus! {

/// Everything that can go wrong while opening an archive or unpacking an
/// entry.
#[derive(Debug, Clone, Copy, PartialEq, Eq, Structural)]
pub enum DatError {
    /// The stream does not look like either supported container layout.
    InvalidSig,
    /// A read ran past the end of the data (short read / EOF).
    ReadError,
    /// A compressed entry is structurally invalid (for instance a
    /// zero-length token, or a decoded size that contradicts the entry).
    LZSSError,
    /// A structural failure while mutating the tree.
    TreeError,
    /// A tree operation was attempted on the wrong kind of node.
    TreeNodeError,
}

impl DatError {
    /// A human-readable description of the error.
    pub fn message(&self) -> (r: &'static str)
        ensures
            *self is InvalidSig ==> r@ == "Invalid Signature"@,
            *self is ReadError ==> r@ == "Error reading file"@,
            *self is LZSSError ==> r@ == "Error unpacking LZSS"@,
            *self is TreeError ==> r@ == "Error creating tree"@,
            *self is TreeNodeError ==> r@ == "Incorrect Node type"@,
    {
        match self {
            DatError::InvalidSig => "Invalid Signature",
            DatError::ReadError => "Error reading file",
            DatError::LZSSError => "Error unpacking LZSS",
            DatError::TreeError => "Error creating tree",
            DatError::TreeNodeError => "Incorrect Node type",
        }
    }
}

} // verus!
