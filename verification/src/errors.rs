//! Diagnostics and error values.
//!
//! Corruption is contained locally: a malformed or truncated chunk gets a
//! diagnostic attached to it and the rest of the tree is decoded normally.
//! Hard errors exist only for operations that cannot produce a result at
//! all, such as decoding a pixel body against something that is not a
//! bitmap header.

use vstd::prelude::*;

verus! {

/// An advisory note attached to a chunk whose bytes did not match its
/// declared layout.  Never fatal: the affected chunk keeps a clipped or
/// partial payload and every other chunk is decoded normally.
#[derive(Clone, Copy, Debug, PartialEq, Eq, Structural)]
pub enum Diagnostic {
    /// A declared chunk, run or plane-group length exceeded the bytes that
    /// were actually available; the payload was clipped to what remained.
    StructuralTruncation,
    /// A fixed-size typed field could not be fully read from a clipped
    /// payload; the chunk fell back to carrying its raw payload.
    MalformedFixedField,
}

impl Diagnostic {
    /// A human-readable rendering of the diagnostic.
    pub fn message(&self) -> (r: &'static str)
        ensures
            r@ == (match self {
                Diagnostic::StructuralTruncation => "declared length exceeds the bytes available; payload clipped"@,
                Diagnostic::MalformedFixedField => "fixed-size field extends past the clipped payload; kept raw bytes"@,
            }),
    {
        match self {
            Diagnostic::StructuralTruncation => "declared length exceeds the bytes available; payload clipped",
            Diagnostic::MalformedFixedField => "fixed-size field extends past the clipped payload; kept raw bytes",
        }
    }
}

/// Why a whole operation (not a single chunk's decode) could not run.
#[derive(Clone, Copy, Debug, PartialEq, Eq, Structural)]
pub enum IffError {
    /// A pixel body declared more than 8 planes; its index bytes could not
    /// be built.  Other chunks remain usable.
    UnsupportedPlaneCount,
    /// The chunk handed over as the pixel body is not a BODY chunk.
    NotBodyChunk,
    /// The chunk handed over as the header is not a BMHD chunk.
    NotHeaderChunk,
    /// No chunk with the requested tag exists in the forest.
    ChunkNotFound,
}

impl IffError {
    /// A human-readable rendering of the error.
    pub fn message(&self) -> (r: &'static str)
        ensures
            r@ == (match self {
                IffError::UnsupportedPlaneCount => "plane count exceeds 8; cannot decode pixel indices into single bytes"@,
                IffError::NotBodyChunk => "chunk must be of type BODY to decode pixel data from it"@,
                IffError::NotHeaderChunk => "header chunk must be of type BMHD (bitmap header)"@,
                IffError::ChunkNotFound => "no chunk with matching type was found"@,
            }),
    {
        match self {
            IffError::UnsupportedPlaneCount => "plane count exceeds 8; cannot decode pixel indices into single bytes",
            IffError::NotBodyChunk => "chunk must be of type BODY to decode pixel data from it",
            IffError::NotHeaderChunk => "header chunk must be of type BMHD (bitmap header)",
            IffError::ChunkNotFound => "no chunk with matching type was found",
        }
    }
}

} // verus!
